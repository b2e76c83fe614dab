use vstd::prelude::*;

use crate::table::values_fit;
use crate::temperature::{is_parsable, temperature_value};

verus! {

/// The line terminator, `\n`.
pub const NEWLINE: u8 = 10;

/// The field delimiter, `;`.
pub const DELIMITER: u8 = 59;

/// Why a line is not a record.
#[derive(Clone, Copy, Debug, PartialEq, Eq, Structural)]
pub enum FormatError {
    /// The line holds no field delimiter.
    MissingDelimiter,
    /// The value is not of the form `-?[0-9]+\.[0-9]`, or out of range.
    InvalidValue,
}

/// What splitting `s` at line terminators has produced so far: the complete
/// non-empty lines, and the line still in progress.
pub open spec fn split_state(s: Seq<u8>) -> (Seq<Seq<u8>>, Seq<u8>)
    decreases s.len(),
{
    if s.len() == 0 {
        (seq![], seq![])
    } else {
        let (done, cur) = split_state(s.drop_last());
        if s.last() == NEWLINE {
            if cur.len() == 0 {
                (done, cur)
            } else {
                (done.push(cur), seq![])
            }
        } else {
            (done, cur.push(s.last()))
        }
    }
}

/// The non-empty lines of `s`, in order; empty lines, a trailing terminator
/// among them, are skipped.
pub open spec fn lines(s: Seq<u8>) -> Seq<Seq<u8>> {
    let (done, cur) = split_state(s);
    if cur.len() == 0 {
        done
    } else {
        done.push(cur)
    }
}

/// Position of the last field delimiter in `line`, or -1.
pub open spec fn last_delimiter(line: Seq<u8>) -> int
    decreases line.len(),
{
    if line.len() == 0 {
        -1
    } else if line.last() == DELIMITER {
        line.len() - 1
    } else {
        last_delimiter(line.drop_last())
    }
}

/// A line split at its last delimiter into key and value, the value parsed
/// into tenths.
pub open spec fn parse_record(line: Seq<u8>) -> Result<(Seq<u8>, int), FormatError> {
    let p = last_delimiter(line);
    if p < 0 {
        Err(FormatError::MissingDelimiter)
    } else {
        let value = line.subrange(p + 1, line.len() as int);
        if is_parsable(value) {
            Ok((line.subrange(0, p), temperature_value(value)))
        } else {
            Err(FormatError::InvalidValue)
        }
    }
}

/// The records of a sequence of lines, or the error of the first line that is
/// not one.
pub open spec fn parse_records(ls: Seq<Seq<u8>>) -> Result<Seq<(Seq<u8>, int)>, FormatError>
    decreases ls.len(),
{
    if ls.len() == 0 {
        Ok(seq![])
    } else {
        match parse_records(ls.drop_last()) {
            Err(e) => Err(e),
            Ok(rs) => match parse_record(ls.last()) {
                Err(e) => Err(e),
                Ok(r) => Ok(rs.push(r)),
            },
        }
    }
}

/// The records of a whole input.
pub open spec fn records_of(data: Seq<u8>) -> Result<Seq<(Seq<u8>, int)>, FormatError> {
    parse_records(lines(data))
}

/// Splits a line at its last delimiter into key and value; `None` when it
/// holds no delimiter.
pub fn split_line(line: &[u8]) -> (r: Option<(&[u8], &[u8])>)
    ensures
        match r {
            Some((k, v)) => {
                &&& 0 <= last_delimiter(line@)
                &&& k@ == line@.subrange(0, last_delimiter(line@))
                &&& v@ == line@.subrange(last_delimiter(line@) + 1, line@.len() as int)
            },
            None => last_delimiter(line@) < 0,
        },
{
    let n = line.len();
    let mut j: usize = n;
    assert(line@.subrange(0, n as int) =~= line@);
    while j > 0 && line[j - 1] != DELIMITER
        invariant
            j <= n == line@.len(),
            last_delimiter(line@) == last_delimiter(line@.subrange(0, j as int)),
        decreases j,
    {
        assert(line@.subrange(0, j as int).drop_last() =~= line@.subrange(0, j - 1));
        j -= 1;
    }
    if j == 0 {
        return None;
    }
    let key = vstd::slice::slice_subrange(line, 0, j - 1);
    let value = vstd::slice::slice_subrange(line, j, n);
    Some((key, value))
}

/// While no terminator is read, the bytes go to the line in progress.
pub proof fn lemma_split_no_newline(s: Seq<u8>, i: int, e: int)
    requires
        0 <= i <= e <= s.len(),
        forall|j: int| i <= j < e ==> s[j] != NEWLINE,
    ensures
        split_state(s.subrange(0, e)).0 == split_state(s.subrange(0, i)).0,
        split_state(s.subrange(0, e)).1 == split_state(s.subrange(0, i)).1 + s.subrange(i, e),
    decreases e - i,
{
    if e > i {
        lemma_split_no_newline(s, i, e - 1);
        assert(s.subrange(0, e).drop_last() =~= s.subrange(0, e - 1));
        assert(split_state(s.subrange(0, i)).1 + s.subrange(i, e) =~= (split_state(
            s.subrange(0, i),
        ).1 + s.subrange(i, e - 1)).push(s[e - 1]));
    } else {
        assert(split_state(s.subrange(0, i)).1 + s.subrange(i, e) =~= split_state(
            s.subrange(0, i),
        ).1);
    }
}

/// Each complete line used up at least one byte of its own.
pub proof fn lemma_split_len(s: Seq<u8>)
    ensures
        split_state(s).0.len() + split_state(s).1.len() <= s.len(),
    decreases s.len(),
{
    if s.len() > 0 {
        lemma_split_len(s.drop_last());
    }
}

/// Lines completed early on stay complete: those of a prefix of the input
/// come first among the lines of the whole.
pub proof fn lemma_split_prefix(s: Seq<u8>, a: int)
    requires
        0 <= a <= s.len(),
    ensures
        split_state(s.subrange(0, a)).0.is_prefix_of(lines(s)),
    decreases s.len() - a,
{
    if a == s.len() {
        assert(s.subrange(0, a) =~= s);
    } else {
        lemma_split_prefix(s, a + 1);
        assert(s.subrange(0, a + 1).drop_last() =~= s.subrange(0, a));
        let x = split_state(s.subrange(0, a)).0;
        let y = split_state(s.subrange(0, a + 1)).0;
        assert(x.is_prefix_of(y)) by {
            if y != x {
                assert(y.subrange(0, x.len() as int) =~= x);
            }
        }
        assert(lines(s).subrange(0, x.len() as int) =~= lines(s).subrange(
            0,
            y.len() as int,
        ).subrange(0, x.len() as int));
    }
    assert(split_state(s).0.is_prefix_of(lines(s))) by {
        if split_state(s).1.len() != 0 {
            assert(lines(s).subrange(0, split_state(s).0.len() as int) =~= split_state(s).0);
        }
    }
}

/// Once a line is not a record, neither are the lines that include it.
pub proof fn lemma_parse_prefix_err(ls: Seq<Seq<u8>>, more: Seq<Seq<u8>>)
    requires
        ls.is_prefix_of(more),
        parse_records(ls) is Err,
    ensures
        parse_records(more) == parse_records(ls),
    decreases more.len(),
{
    if more.len() > ls.len() {
        assert(ls.is_prefix_of(more.drop_last())) by {
            assert(more.drop_last().subrange(0, ls.len() as int) =~= more.subrange(
                0,
                ls.len() as int,
            ));
        }
        lemma_parse_prefix_err(ls, more.drop_last());
    } else {
        assert(ls =~= more);
    }
}

/// Every value of a record fits the fixed-point type.
pub proof fn lemma_records_fit(ls: Seq<Seq<u8>>)
    requires
        parse_records(ls) is Ok,
    ensures
        values_fit(parse_records(ls)->Ok_0),
    decreases ls.len(),
{
    if ls.len() > 0 {
        lemma_records_fit(ls.drop_last());
        let rs = parse_records(ls.drop_last())->Ok_0;
        let all = parse_records(ls)->Ok_0;
        assert forall|i: int| 0 <= i < all.len() implies crate::temperature::fits_i16(
            #[trigger] all[i].1,
        ) by {
            if i < rs.len() {
                assert(all[i] == rs[i]);
            }
        }
    }
}

} // verus!
