use vstd::prelude::*;

use crate::records::{
    lemma_parse_prefix_err, lemma_records_fit, lemma_split_len, lemma_split_no_newline,
    lemma_split_prefix, lines, parse_record, parse_records, records_of, split_line, split_state,
    FormatError, NEWLINE,
};
use crate::table::{
    aggregate, insert_record, is_sorted, lemma_aggregate_lookup, lemma_aggregate_sorted,
    lemma_lookup_position, seq_max, seq_min, seq_sum, stat_of, values_of, Accumulator, Entry,
    StationTable,
};
use crate::temperature::{
    is_parsable, push_tenths, temperature_value, tenths_text, try_parse_temperature,
};

verus! {

/// ASCII `{`.
pub const OPEN_BRACE: u8 = 123;

/// ASCII `}`.
pub const CLOSE_BRACE: u8 = 125;

/// ASCII `=`.
pub const EQUALS: u8 = 61;

/// ASCII `/`.
pub const SLASH: u8 = 47;

/// ASCII `,`.
pub const COMMA: u8 = 44;

/// ASCII space.
pub const SPACE: u8 = 32;

/// The mean of `count` measurements that sum to `sum`, in tenths, rounded to
/// the nearest tenth, halves away from zero. A mean that rounds to zero is
/// zero, and is written `0.0` whatever its sign.
pub open spec fn mean_tenths(sum: int, count: int) -> int {
    if sum >= 0 {
        (2 * sum + count) / (2 * count)
    } else {
        -((2 * -sum + count) / (2 * count))
    }
}

/// `key=min/mean/max`, each number with one fractional digit.
pub open spec fn entry_text(e: Entry) -> Seq<u8> {
    e.0 + seq![EQUALS] + tenths_text(e.1.min) + seq![SLASH] + tenths_text(
        mean_tenths(e.1.sum, e.1.count as int),
    ) + seq![SLASH] + tenths_text(e.1.max)
}

/// The entries' texts, separated by `, `.
pub open spec fn entries_text(es: Seq<Entry>) -> Seq<u8>
    decreases es.len(),
{
    if es.len() == 0 {
        seq![]
    } else if es.len() == 1 {
        entry_text(es[0])
    } else {
        entries_text(es.drop_last()) + seq![COMMA, SPACE] + entry_text(es.last())
    }
}

/// The entries' texts in braces: `{a=1.0/1.0/1.0, b=...}`.
pub open spec fn summary_text(es: Seq<Entry>) -> Seq<u8> {
    seq![OPEN_BRACE] + entries_text(es) + seq![CLOSE_BRACE]
}

/// The output for a whole input, or the error of its first malformed line.
pub open spec fn summary_of(data: Seq<u8>) -> Result<Seq<u8>, FormatError> {
    match records_of(data) {
        Ok(recs) => Ok(summary_text(aggregate(recs))),
        Err(e) => Err(e),
    }
}

/// The rounded mean of an accumulator, in tenths.
pub fn mean_of(acc: &Accumulator) -> (r: i32)
    requires
        acc.wf(),
        acc.count >= 1,
    ensures
        r == mean_tenths(acc.sum as int, acc.count as int),
{
    let c = acc.count as i128;
    let s = acc.sum;
    let m: i128 = if s >= 0 { s } else { -s };
    proof {
        assert(c * 32768 <= u64::MAX * 32768) by (nonlinear_arith)
            requires
                c <= u64::MAX,
        ;
        assert(m <= c * 32768);
        let q = (2 * m + c) / (2 * c);
        assert(q <= 32768) by (nonlinear_arith)
            requires
                q == (2 * m + c) / (2 * c),
                0 <= m <= c * 32768,
                c >= 1,
        ;
        assert(q >= 0) by (nonlinear_arith)
            requires
                q == (2 * m + c) / (2 * c),
                0 <= m,
                c >= 1,
        ;
    }
    let q = (2 * m + c) / (2 * c);
    if s >= 0 {
        q as i32
    } else {
        0 - q as i32
    }
}

/// Appends bytes to `out`.
fn push_bytes(out: &mut Vec<u8>, b: &[u8])
    ensures
        final(out)@ == old(out)@ + b@,
{
    let ghost start = out@;
    let mut i: usize = 0;
    while i < b.len()
        invariant
            i <= b@.len(),
            out@ == start + b@.subrange(0, i as int),
        decreases b@.len() - i,
    {
        out.push(b[i]);
        assert(start + b@.subrange(0, i + 1) =~= (start + b@.subrange(0, i as int)).push(b[i as int]));
        i += 1;
    }
    assert(b@.subrange(0, b@.len() as int) =~= b@);
}

/// Appends `key=min/mean/max` for one key.
pub fn push_entry(out: &mut Vec<u8>, key: &[u8], acc: &Accumulator)
    requires
        acc.wf(),
        acc.count >= 1,
    ensures
        final(out)@ == old(out)@ + entry_text((key@, acc@)),
{
    let ghost start = out@;
    push_bytes(out, key);
    out.push(EQUALS);
    push_tenths(out, acc.min as i32);
    out.push(SLASH);
    let mean = mean_of(acc);
    push_tenths(out, mean);
    out.push(SLASH);
    push_tenths(out, acc.max as i32);
    assert(out@ =~= start + entry_text((key@, acc@)));
}

/// The summary of a table: its entries in byte-wise order of their keys, as
/// `{key=min/mean/max, ...}`.
pub fn format_output_bytes(t: &StationTable) -> (r: Vec<u8>)
    requires
        t.wf(),
    ensures
        r@ == summary_text(t@),
{
    let mut out: Vec<u8> = Vec::new();
    out.push(OPEN_BRACE);
    let n = t.len();
    let mut i: usize = 0;
    while i < n
        invariant
            t.wf(),
            n == t@.len(),
            i <= n,
            out@ == seq![OPEN_BRACE] + entries_text(t@.subrange(0, i as int)),
        decreases n - i,
    {
        let ghost before = out@;
        if i > 0 {
            out.push(COMMA);
            out.push(SPACE);
        }
        let acc = t.accumulator(i);
        push_entry(&mut out, t.key(i), &acc);
        let ghost es = t@.subrange(0, i + 1);
        assert(es.drop_last() =~= t@.subrange(0, i as int));
        if i == 0 {
            assert(out@ =~= seq![OPEN_BRACE] + entries_text(es));
        } else {
            assert(out@ =~= seq![OPEN_BRACE] + entries_text(es));
        }
        i += 1;
    }
    out.push(CLOSE_BRACE);
    assert(t@.subrange(0, n as int) =~= t@);
    assert(out@ =~= summary_text(t@));
    out
}

/// Parses the value of one record and folds it into the table under its key.
pub fn process_line(station: &[u8], temperature: &[u8], table: &mut StationTable) -> (r: Result<
    (),
    FormatError,
>)
    requires
        old(table).wf(),
        old(table).counts_below(u64::MAX as int),
    ensures
        final(table).wf(),
        is_parsable(temperature@) ==> r is Ok && final(table)@ == insert_record(
            old(table)@,
            station@,
            temperature_value(temperature@),
        ),
        !is_parsable(temperature@) ==> r == Err::<(), FormatError>(FormatError::InvalidValue)
            && final(table)@ == old(table)@,
        forall|b: int|
            b >= 1 && old(table).counts_below(b) ==> #[trigger] final(table).counts_below(b + 1),
{
    match try_parse_temperature(temperature) {
        Some(v) => {
            table.record(station, v);
            Ok(())
        },
        None => {
            assert forall|b: int| b >= 1 && table.counts_below(b) implies #[trigger] table.counts_below(
                b + 1,
            ) by {
                table.lemma_counts_below_larger(b, b + 1);
            }
            Err(FormatError::InvalidValue)
        },
    }
}

/// Aggregates every record of `data` into a table of per-key statistics; the
/// first line that is not a record stops the run with its error.
pub fn process_data(data: &[u8]) -> (r: Result<StationTable, FormatError>)
    ensures
        match records_of(data@) {
            Ok(recs) => r is Ok && r->Ok_0.wf() && r->Ok_0@ == aggregate(recs),
            Err(e) => r is Err && r->Err_0 == e,
        },
{
    let n = data.len();
    let mut t = StationTable::new();
    let mut i: usize = 0;
    let ghost mut recs: Seq<(Seq<u8>, int)> = seq![];
    assert(data@.subrange(0, 0) =~= Seq::<u8>::empty());
    while i < n
        invariant
            i <= n == data@.len(),
            split_state(data@.subrange(0, i as int)).1.len() == 0,
            parse_records(split_state(data@.subrange(0, i as int)).0) == Ok::<
                Seq<(Seq<u8>, int)>,
                FormatError,
            >(recs),
            recs.len() == split_state(data@.subrange(0, i as int)).0.len(),
            t.wf(),
            t@ == aggregate(recs),
            t.counts_below(recs.len() + 1 as int),
        decreases n - i,
    {
        let mut e: usize = i;
        while e < n && data[e] != NEWLINE
            invariant
                i <= e <= n == data@.len(),
                forall|j: int| i <= j < e ==> data@[j] != NEWLINE,
            decreases n - e,
        {
            e += 1;
        }
        let line = vstd::slice::slice_subrange(data, i, e);
        let ghost done = split_state(data@.subrange(0, i as int)).0;
        proof {
            lemma_split_no_newline(data@, i as int, e as int);
            lemma_split_len(data@.subrange(0, e as int));
            assert(split_state(data@.subrange(0, e as int)).1 =~= line@);
        }
        let ghost ls = if line@.len() == 0 {
            done
        } else {
            done.push(line@)
        };
        proof {
            if e < n {
                assert(data@.subrange(0, e + 1).drop_last() =~= data@.subrange(0, e as int));
                assert(split_state(data@.subrange(0, e + 1)).0 == ls);
                lemma_split_prefix(data@, e + 1);
            } else {
                assert(data@.subrange(0, e as int) =~= data@);
                assert(lines(data@) == ls);
            }
            assert(ls.is_prefix_of(lines(data@)));
            if line@.len() > 0 {
                assert(ls.drop_last() == done);
            }
        }
        if e > i {
            match split_line(line) {
                Some((k, value)) => {
                    proof {
                        t.lemma_counts_below_larger(recs.len() + 1 as int, u64::MAX as int);
                    }
                    match process_line(k, value, &mut t) {
                        Ok(()) => {
                            proof {
                                let r = (k@, temperature_value(value@));
                                assert(recs.push(r).drop_last() == recs);
                                recs = recs.push(r);
                                assert(parse_record(line@) == Ok::<(Seq<u8>, int), FormatError>(
                                    r,
                                ));
                            }
                        },
                        Err(err) => {
                            proof {
                                lemma_parse_prefix_err(ls, lines(data@));
                            }
                            return Err(err);
                        },
                    }
                },
                None => {
                    proof {
                        lemma_parse_prefix_err(ls, lines(data@));
                    }
                    return Err(FormatError::MissingDelimiter);
                },
            }
        }
        if e == n {
            return Ok(t);
        }
        i = e + 1;
    }
    assert(data@.subrange(0, n as int) =~= data@);
    Ok(t)
}

/// The text that UTF-8 bytes decode to, each invalid sequence replaced.
pub uninterp spec fn utf8_text(b: Seq<u8>) -> Seq<char>;

/// Relies on `String::from_utf8_lossy`: decodes UTF-8, replacing each invalid
/// sequence with U+FFFD; the result depends on the bytes alone.
#[verifier::external_body]
fn decode_utf8(b: &[u8]) -> (r: String)
    ensures
        r@ == utf8_text(b@),
{
    String::from_utf8_lossy(b).into_owned()
}

/// The summary of a table as text.
pub fn format_output(t: &StationTable) -> (r: String)
    requires
        t.wf(),
    ensures
        r@ == utf8_text(summary_text(t@)),
{
    let bytes = format_output_bytes(t);
    decode_utf8(bytes.as_slice())
}

/// The summary of a whole input, as bytes.
pub fn summarize_bytes(data: &[u8]) -> (r: Result<Vec<u8>, FormatError>)
    ensures
        match summary_of(data@) {
            Ok(b) => r is Ok && r->Ok_0@ == b,
            Err(e) => r is Err && r->Err_0 == e,
        },
{
    match process_data(data) {
        Ok(t) => Ok(format_output_bytes(&t)),
        Err(e) => Err(e),
    }
}

/// The summary of a whole input, as text.
pub fn summarize(data: &[u8]) -> (r: Result<String, FormatError>)
    ensures
        match summary_of(data@) {
            Ok(b) => r is Ok && r->Ok_0@ == utf8_text(b),
            Err(e) => r is Err && r->Err_0 == e,
        },
{
    match summarize_bytes(data) {
        Ok(b) => Ok(decode_utf8(b.as_slice())),
        Err(e) => Err(e),
    }
}

/// An input without records summarizes to `{}`.
pub proof fn lemma_no_records(data: Seq<u8>)
    requires
        lines(data).len() == 0,
    ensures
        summary_of(data) == Ok::<Seq<u8>, FormatError>(seq![OPEN_BRACE, CLOSE_BRACE]),
{
    assert(records_of(data) == Ok::<Seq<(Seq<u8>, int)>, FormatError>(seq![]));
    assert(aggregate(seq![]) == Seq::<Entry>::empty());
    assert(summary_text(Seq::<Entry>::empty()) =~= seq![OPEN_BRACE, CLOSE_BRACE]);
}

/// For every key of an input with `N` measurements `v1..vN`, the summary
/// holds one entry, whose minimum and maximum are exactly `min(v1..vN)` and
/// `max(v1..vN)` and whose mean is `sum(v1..vN) / N` rounded to a tenth; a key
/// without measurements has no entry.
pub proof fn lemma_key_statistics(data: Seq<u8>, k: Seq<u8>)
    requires
        records_of(data) is Ok,
    ensures
        ({
            let recs = records_of(data)->Ok_0;
            let vs = values_of(recs, k);
            let es = aggregate(recs);
            &&& vs.len() > 0 ==> exists|i: int|
                0 <= i < es.len() && #[trigger] es[i].0 == k && es[i].1 == stat_of(vs)
                    && entry_text(es[i]) == k + seq![EQUALS] + tenths_text(seq_min(vs))
                    + seq![SLASH] + tenths_text(mean_tenths(seq_sum(vs), vs.len() as int))
                    + seq![SLASH] + tenths_text(seq_max(vs))
            &&& vs.len() == 0 ==> forall|i: int| 0 <= i < es.len() ==> #[trigger] es[i].0 != k
        }),
{
    let recs = records_of(data)->Ok_0;
    lemma_records_fit(lines(data));
    lemma_aggregate_lookup(recs, k);
    let es = aggregate(recs);
    let vs = values_of(recs, k);
    lemma_lookup_position(es, k);
    if vs.len() > 0 {
        let i = choose|i: int| 0 <= i < es.len() && #[trigger] es[i] == (k, stat_of(vs));
        assert(es[i].0 == k);
    }
}

/// The keys of a summary are in strictly increasing byte-wise order, so none
/// appears twice.
pub proof fn lemma_keys_sorted(data: Seq<u8>)
    requires
        records_of(data) is Ok,
    ensures
        is_sorted(aggregate(records_of(data)->Ok_0)),
{
    lemma_aggregate_sorted(records_of(data)->Ok_0);
}

/// The summary is a function of the input bytes: running twice on the same
/// input gives byte-identical results.
pub proof fn lemma_same_input_same_summary(a: Seq<u8>, b: Seq<u8>)
    requires
        a == b,
    ensures
        summary_of(a) == summary_of(b),
{
}

} // verus!
