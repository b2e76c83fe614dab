use vstd::prelude::*;

verus! {

/// ASCII `0`.
pub const ZERO: u8 = 48;

/// ASCII `9`.
pub const NINE: u8 = 57;

/// ASCII `.`.
pub const POINT: u8 = 46;

/// ASCII `-`.
pub const MINUS: u8 = 45;

pub open spec fn is_digit(b: u8) -> bool {
    ZERO <= b && b <= NINE
}

pub open spec fn all_digits(s: Seq<u8>) -> bool {
    forall|i: int| 0 <= i < s.len() ==> is_digit(#[trigger] s[i])
}

/// The number that a string of decimal digits spells, most significant first.
pub open spec fn digits_value(s: Seq<u8>) -> nat
    decreases s.len(),
{
    if s.len() == 0 {
        0
    } else {
        digits_value(s.drop_last()) * 10 + (s.last() - ZERO) as nat
    }
}

/// `[0-9]+\.[0-9]`
pub open spec fn is_unsigned_temperature(s: Seq<u8>) -> bool {
    &&& s.len() >= 3
    &&& all_digits(s.subrange(0, s.len() - 2))
    &&& s[s.len() - 2] == POINT
    &&& is_digit(s[s.len() - 1])
}

/// The value, in tenths, of a string `[0-9]+\.[0-9]`.
pub open spec fn magnitude(s: Seq<u8>) -> nat {
    digits_value(s.subrange(0, s.len() - 2)) * 10 + (s[s.len() - 1] - ZERO) as nat
}

/// A measurement as the input writes it: `-?[0-9]+\.[0-9]`.
pub open spec fn is_temperature(s: Seq<u8>) -> bool {
    if s.len() > 0 && s[0] == MINUS {
        is_unsigned_temperature(s.subrange(1, s.len() as int))
    } else {
        is_unsigned_temperature(s)
    }
}

/// The value of a measurement, in tenths of a unit.
pub open spec fn temperature_value(s: Seq<u8>) -> int {
    if s.len() > 0 && s[0] == MINUS {
        -magnitude(s.subrange(1, s.len() as int))
    } else {
        magnitude(s) as int
    }
}

pub open spec fn fits_i16(v: int) -> bool {
    i16::MIN <= v <= i16::MAX
}

/// A value that the parser accepts: well-formed, and within the range of the
/// fixed-point type.
pub open spec fn is_parsable(s: Seq<u8>) -> bool {
    is_temperature(s) && fits_i16(temperature_value(s))
}

proof fn lemma_digits_value_prefix_monotone(s: Seq<u8>, i: int, j: int)
    requires
        0 <= i <= j <= s.len(),
        all_digits(s),
    ensures
        digits_value(s.subrange(0, i)) <= digits_value(s.subrange(0, j)),
    decreases j - i,
{
    if i < j {
        lemma_digits_value_prefix_monotone(s, i, j - 1);
        assert(s.subrange(0, j).drop_last() =~= s.subrange(0, j - 1));
    }
}

/// Parses a measurement into tenths of a unit; `None` when the bytes are not
/// of the form `-?[0-9]+\.[0-9]` or the value does not fit an `i16`.
pub fn try_parse_temperature(t: &[u8]) -> (r: Option<i16>)
    ensures
        r == (if is_parsable(t@) {
            Some(temperature_value(t@) as i16)
        } else {
            None::<i16>
        }),
{
    let n = t.len();
    let neg = n > 0 && t[0] == MINUS;
    let start: usize = if neg { 1 } else { 0 };
    let ghost u = t@.subrange(start as int, n as int);
    if !neg {
        assert(u =~= t@);
    }
    assert(is_temperature(t@) == is_unsigned_temperature(u));
    assert(temperature_value(t@) == if neg { -magnitude(u) } else { magnitude(u) as int });
    if n - start < 3 {
        return None;
    }
    if t[n - 2] != POINT {
        return None;
    }
    let f = t[n - 1];
    if !(ZERO <= f && f <= NINE) {
        return None;
    }
    let ghost int_part = u.subrange(0, u.len() - 2);
    assert(int_part =~= t@.subrange(start as int, n - 2));
    let mut acc: u32 = 0;
    let mut i: usize = start;
    while i < n - 2
        invariant
            start <= i <= n - 2,
            n == t@.len(),
            u == t@.subrange(start as int, n as int),
            u.len() >= 3,
            is_temperature(t@) == is_unsigned_temperature(u),
            temperature_value(t@) == if neg { -magnitude(u) } else { magnitude(u) as int },
            int_part == u.subrange(0, u.len() - 2),
            int_part == t@.subrange(start as int, n - 2),
            all_digits(t@.subrange(start as int, i as int)),
            acc == digits_value(t@.subrange(start as int, i as int)),
            acc <= 3277,
        decreases n - 2 - i,
    {
        let c = t[i];
        if !(ZERO <= c && c <= NINE) {
            assert(int_part[i - start] == c);
            return None;
        }
        let ghost prev = t@.subrange(start as int, i as int);
        assert(t@.subrange(start as int, i + 1).drop_last() =~= prev);
        assert(all_digits(t@.subrange(start as int, i + 1))) by {
            assert forall|k: int| 0 <= k < i + 1 - start implies is_digit(
                #[trigger] t@.subrange(start as int, i + 1)[k],
            ) by {
                if k < i - start {
                    assert(t@.subrange(start as int, i + 1)[k] == prev[k]);
                }
            }
        }
        acc = acc * 10 + (c - ZERO) as u32;
        if acc > 3277 {
            proof {
                if is_unsigned_temperature(u) {
                    assert(all_digits(int_part));
                    assert(int_part.subrange(0, i + 1 - start) =~= t@.subrange(
                        start as int,
                        i + 1,
                    ));
                    assert(int_part.subrange(0, int_part.len() as int) =~= int_part);
                    lemma_digits_value_prefix_monotone(
                        int_part,
                        i + 1 - start,
                        int_part.len() as int,
                    );
                }
            }
            return None;
        }
        i += 1;
    }
    assert(u.subrange(0, u.len() - 2) =~= t@.subrange(start as int, n - 2));
    assert(u[u.len() - 1] == f);
    assert(u[u.len() - 2] == t[n - 2]);
    let mag: u32 = acc * 10 + (f - ZERO) as u32;
    assert(mag == magnitude(u));
    if neg {
        if mag > 32768 {
            None
        } else {
            Some((0 - mag as i32) as i16)
        }
    } else {
        if mag > 32767 {
            None
        } else {
            Some(mag as i16)
        }
    }
}

/// Parses a well-formed measurement into tenths of a unit
/// (`"12.3"` gives `123`, `"-4.7"` gives `-47`).
pub fn parse_temperature(t: &[u8]) -> (r: i16)
    requires
        is_parsable(t@),
    ensures
        r == temperature_value(t@),
{
    match try_parse_temperature(t) {
        Some(v) => v,
        None => 0,
    }
}

/// The decimal digits of `n`, most significant first, without leading zeros.
pub open spec fn decimal_digits(n: nat) -> Seq<u8>
    decreases n,
{
    if n < 10 {
        seq![(n + ZERO) as u8]
    } else {
        decimal_digits(n / 10).push((n % 10 + ZERO) as u8)
    }
}

pub open spec fn abs(v: int) -> nat {
    if v < 0 {
        (-v) as nat
    } else {
        v as nat
    }
}

/// A value in tenths written with exactly one fractional digit
/// (`-47` is written `-4.7`).
pub open spec fn tenths_text(v: int) -> Seq<u8> {
    let body = decimal_digits(abs(v) / 10).push(POINT).push((abs(v) % 10 + ZERO) as u8);
    if v < 0 {
        seq![MINUS] + body
    } else {
        body
    }
}

proof fn lemma_decimal_digits(n: nat)
    ensures
        decimal_digits(n).len() >= 1,
        all_digits(decimal_digits(n)),
        digits_value(decimal_digits(n)) == n,
    decreases n,
{
    if n >= 10 {
        lemma_decimal_digits(n / 10);
        let d = decimal_digits(n / 10);
        assert(decimal_digits(n).drop_last() =~= d);
        assert forall|i: int| 0 <= i < decimal_digits(n).len() implies is_digit(
            #[trigger] decimal_digits(n)[i],
        ) by {
            if i < d.len() {
                assert(decimal_digits(n)[i] == d[i]);
            }
        }
        assert((n / 10) * 10 + n % 10 == n);
    } else {
        assert(decimal_digits(n).drop_last() =~= Seq::<u8>::empty());
        assert(digits_value(Seq::<u8>::empty()) == 0);
    }
}

/// Writing a value in tenths and parsing the text gives the value back, and
/// the text is a well-formed measurement.
pub proof fn lemma_render_parse(v: int)
    ensures
        is_temperature(tenths_text(v)),
        temperature_value(tenths_text(v)) == v,
{
    let m = abs(v);
    lemma_decimal_digits(m / 10);
    let dd = decimal_digits(m / 10);
    let body = dd.push(POINT).push((m % 10 + ZERO) as u8);
    assert(body.subrange(0, body.len() - 2) =~= dd);
    assert(is_unsigned_temperature(body));
    assert(magnitude(body) == m);
    if v < 0 {
        assert(tenths_text(v).subrange(1, tenths_text(v).len() as int) =~= body);
    } else {
        assert(body[0] == dd[0]);
    }
}

/// Parsing a measurement and writing it back with one fractional digit
/// reproduces its value.
pub proof fn lemma_parse_render_round_trip(s: Seq<u8>)
    requires
        is_temperature(s),
    ensures
        is_temperature(tenths_text(temperature_value(s))),
        temperature_value(tenths_text(temperature_value(s))) == temperature_value(s),
{
    lemma_render_parse(temperature_value(s));
}

/// Appends the decimal digits of `n`.
pub fn push_decimal(out: &mut Vec<u8>, n: u64)
    ensures
        final(out)@ == old(out)@ + decimal_digits(n as nat),
    decreases n,
{
    if n >= 10 {
        push_decimal(out, n / 10);
    }
    out.push((n % 10) as u8 + ZERO);
    assert(out@ =~= old(out)@ + decimal_digits(n as nat));
}

/// Appends a value in tenths with exactly one fractional digit.
pub fn push_tenths(out: &mut Vec<u8>, v: i32)
    ensures
        final(out)@ == old(out)@ + tenths_text(v as int),
{
    let ghost start = out@;
    let m: u64 = if v < 0 { (0 - v as i64) as u64 } else { v as u64 };
    assert(m == abs(v as int));
    if v < 0 {
        out.push(MINUS);
    }
    push_decimal(out, m / 10);
    out.push(POINT);
    out.push((m % 10) as u8 + ZERO);
    assert(out@ =~= start + tenths_text(v as int));
}

} // verus!
