//! Decimal numerals: what a run of digits denotes, reading one from a
//! character buffer, and writing a number out again.

use vstd::prelude::*;

verus! {

/// `c` is one of the ASCII digits `0` to `9`.
pub open spec fn is_digit(c: char) -> bool {
    '0' <= c <= '9'
}

/// The number that the digit `c` stands for.
pub open spec fn digit_value(c: char) -> int {
    c as int - '0' as int
}

/// The digit that stands for `d`, for `d` from 0 to 9.
pub open spec fn digit_char(d: int) -> char {
    ('0' as int + d) as char
}

/// Every character of `s` is a digit.
pub open spec fn all_digits(s: Seq<char>) -> bool {
    forall|i: int| 0 <= i < s.len() ==> is_digit(#[trigger] s[i])
}

/// The number that a run of digits denotes in base ten, most significant
/// digit first.  The empty run denotes 0.
pub open spec fn digits_value(s: Seq<char>) -> int
    decreases s.len(),
{
    if s.len() == 0 {
        0
    } else {
        10 * digits_value(s.drop_last()) + digit_value(s.last())
    }
}

/// Reads `s` as an unsigned 64-bit number: one or more digits and nothing
/// else, denoting a value that fits.
pub open spec fn parse_unsigned(s: Seq<char>) -> Option<u64> {
    if s.len() > 0 && all_digits(s) && digits_value(s) <= u64::MAX {
        Some(digits_value(s) as u64)
    } else {
        None
    }
}

/// Reads `s` as a signed 64-bit number: an optional `+` or `-`, then one or
/// more digits and nothing else, denoting a value that fits.
pub open spec fn parse_signed(s: Seq<char>) -> Option<i64> {
    let negative = s.len() > 0 && s[0] == '-';
    let signed = negative || (s.len() > 0 && s[0] == '+');
    let digits = if signed { s.drop_first() } else { s };
    let value = if negative { -digits_value(digits) } else { digits_value(digits) };
    if digits.len() > 0 && all_digits(digits) && i64::MIN <= value <= i64::MAX {
        Some(value as i64)
    } else {
        None
    }
}

/// The shortest run of digits that denotes `n`.
pub open spec fn decimal(n: nat) -> Seq<char>
    decreases n,
{
    if n < 10 {
        seq![digit_char(n as int)]
    } else {
        decimal(n / 10).push(digit_char((n % 10) as int))
    }
}

/// `decimal` of the magnitude, with `-` in front of a negative number.
pub open spec fn signed_decimal(i: int) -> Seq<char> {
    if i < 0 {
        seq!['-'] + decimal((-i) as nat)
    } else {
        decimal(i as nat)
    }
}

/// A run of digits denotes at least what any of its prefixes denotes, and
/// never a negative number.
pub proof fn lemma_digits_value_prefix(s: Seq<char>, k: int)
    requires
        all_digits(s),
        0 <= k <= s.len(),
    ensures
        0 <= digits_value(s.take(k)) <= digits_value(s),
    decreases s.len() - k,
{
    if k == s.len() {
        assert(s.take(k) == s);
        lemma_digits_value_nonnegative(s);
    } else {
        lemma_digits_value_prefix(s, k + 1);
        let t = s.take(k + 1);
        assert(t.drop_last() == s.take(k));
        assert(is_digit(s[k]));
        assert(t.last() == s[k]);
        lemma_digits_value_nonnegative(s.take(k));
    }
}

/// A run of digits never denotes a negative number.
pub proof fn lemma_digits_value_nonnegative(s: Seq<char>)
    requires
        all_digits(s),
    ensures
        0 <= digits_value(s),
    decreases s.len(),
{
    if s.len() > 0 {
        assert(is_digit(s.last()));
        lemma_digits_value_nonnegative(s.drop_last());
    }
}

/// `decimal(n)` is a non-empty run of digits that denotes `n`.
pub proof fn lemma_decimal(n: nat)
    ensures
        decimal(n).len() > 0,
        all_digits(decimal(n)),
        digits_value(decimal(n)) == n,
    decreases n,
{
    if n < 10 {
        let s = decimal(n);
        assert(s.drop_last() == Seq::<char>::empty());
        assert(digits_value(s.drop_last()) == 0);
    } else {
        lemma_decimal(n / 10);
        let s = decimal(n);
        assert(s.drop_last() == decimal(n / 10));
    }
}

/// The numeral of a number holds digits and, in front of a negative
/// number, one `-`; it holds nothing else.
pub proof fn lemma_signed_decimal_chars(i: int)
    ensures
        signed_decimal(i).len() > 0,
        forall|j: int|
            0 <= j < signed_decimal(i).len() ==> is_digit(#[trigger] signed_decimal(i)[j])
                || signed_decimal(i)[j] == '-',
{
    if i < 0 {
        lemma_decimal((-i) as nat);
        let d = decimal((-i) as nat);
        let s = signed_decimal(i);
        assert forall|j: int| 0 <= j < s.len() implies is_digit(#[trigger] s[j]) || s[j]
            == '-' by {
            if j > 0 {
                assert(s[j] == d[j - 1]);
            }
        }
    } else {
        lemma_decimal(i as nat);
    }
}

/// Reading back what was written gives the number: unsigned.
pub proof fn lemma_parse_unsigned_decimal(v: u64)
    ensures
        parse_unsigned(decimal(v as nat)) == Some(v),
{
    lemma_decimal(v as nat);
}

/// Reading back what was written gives the number: signed.
pub proof fn lemma_parse_signed_decimal(v: i64)
    ensures
        parse_signed(signed_decimal(v as int)) == Some(v),
{
    if v < 0 {
        let m = (-(v as int)) as nat;
        lemma_decimal(m);
        let s = signed_decimal(v as int);
        assert(s[0] == '-');
        assert(s.drop_first() == decimal(m));
    } else {
        lemma_decimal(v as nat);
        let s = decimal(v as nat);
        assert(is_digit(s[0]));
    }
}

/// Reads the digits `buf[from..to]` as a number of at most `limit`.
fn read_digits(buf: &Vec<char>, from: usize, to: usize, limit: u64) -> (r: Option<u64>)
    requires
        from <= to <= buf.len(),
    ensures
        r == ({
            let s = buf@.subrange(from as int, to as int);
            if s.len() > 0 && all_digits(s) && digits_value(s) <= limit {
                Some(digits_value(s) as u64)
            } else {
                None
            }
        }),
        r matches Some(v) ==> v == digits_value(buf@.subrange(from as int, to as int)),
{
    let ghost s = buf@.subrange(from as int, to as int);
    if from == to {
        return None;
    }
    let mut acc: u64 = 0;
    let mut i: usize = from;
    while i < to
        invariant
            from <= i <= to <= buf.len(),
            s == buf@.subrange(from as int, to as int),
            all_digits(s.take(i - from)),
            acc == digits_value(s.take(i - from)),
            acc <= limit,
        decreases to - i,
    {
        let c = buf[i];
        let ghost k = i - from;
        assert(s[k] == c);
        assert(s.take(k + 1).drop_last() == s.take(k));
        assert(s.take(k + 1).last() == c);
        if c < '0' || c > '9' {
            assert(!is_digit(s[k]));
            return None;
        }
        let d: u64 = (c as u64) - 48;
        assert(d == digit_value(c));
        if acc > limit / 10 || (acc == limit / 10 && d > limit % 10) {
            proof {
                assert(10 * acc + d > limit);
                if all_digits(s) {
                    lemma_digits_value_prefix(s, k + 1);
                }
            }
            return None;
        }
        acc = acc * 10 + d;
        i = i + 1;
        assert(all_digits(s.take(i - from))) by {
            assert forall|j: int| 0 <= j < s.take(k + 1).len() implies is_digit(
                #[trigger] s.take(k + 1)[j],
            ) by {
                if j < k {
                    assert(s.take(k + 1)[j] == s.take(k)[j]);
                }
            }
        }
    }
    assert(s.take(to - from) == s);
    Some(acc)
}

/// Reads the characters `buf[from..to]` as an unsigned 64-bit number.
pub fn read_unsigned(buf: &Vec<char>, from: usize, to: usize) -> (r: Option<u64>)
    requires
        from <= to <= buf.len(),
    ensures
        r == parse_unsigned(buf@.subrange(from as int, to as int)),
{
    read_digits(buf, from, to, u64::MAX)
}

/// Reads the characters `buf[from..to]` as a signed 64-bit number.
pub fn read_signed(buf: &Vec<char>, from: usize, to: usize) -> (r: Option<i64>)
    requires
        from <= to <= buf.len(),
    ensures
        r == parse_signed(buf@.subrange(from as int, to as int)),
{
    let ghost s = buf@.subrange(from as int, to as int);
    if from == to {
        return None;
    }
    let sign = buf[from];
    assert(s[0] == sign);
    if sign == '-' {
        assert(s.drop_first() == buf@.subrange(from + 1, to as int));
        match read_digits(buf, from + 1, to, 0x8000_0000_0000_0000) {
            Some(m) => {
                if m == 0x8000_0000_0000_0000 {
                    Some(i64::MIN)
                } else {
                    Some(-(m as i64))
                }
            },
            None => {
                proof {
                    if all_digits(s.drop_first()) {
                        lemma_digits_value_nonnegative(s.drop_first());
                    }
                }
                None
            },
        }
    } else if sign == '+' {
        assert(s.drop_first() == buf@.subrange(from + 1, to as int));
        match read_digits(buf, from + 1, to, 0x7fff_ffff_ffff_ffff) {
            Some(m) => Some(m as i64),
            None => {
                proof {
                    if all_digits(s.drop_first()) {
                        lemma_digits_value_nonnegative(s.drop_first());
                    }
                }
                None
            },
        }
    } else {
        match read_digits(buf, from, to, 0x7fff_ffff_ffff_ffff) {
            Some(m) => Some(m as i64),
            None => {
                proof {
                    if all_digits(s) {
                        lemma_digits_value_nonnegative(s);
                    }
                }
                None
            },
        }
    }
}

/// Appends the decimal numeral of `v` to `out`.
pub fn write_unsigned(out: &mut String, v: u64)
    ensures
        final(out)@ == old(out)@ + decimal(v as nat),
    decreases v,
{
    if v >= 10 {
        write_unsigned(out, v / 10);
    }
    let d: u8 = (v % 10) as u8;
    let c: char = (48 + d) as char;
    assert(c == digit_char((v % 10) as int));
    out.push(c);
    assert(final(out)@ == old(out)@ + decimal(v as nat));
}

/// Appends the decimal numeral of `v` to `out`, with `-` in front of a
/// negative number.
pub fn write_signed(out: &mut String, v: i64)
    ensures
        final(out)@ == old(out)@ + signed_decimal(v as int),
{
    if v < 0 {
        out.push('-');
        let m: u64 = if v == i64::MIN {
            0x8000_0000_0000_0000
        } else {
            (-v) as u64
        };
        write_unsigned(out, m);
        assert(final(out)@ == old(out)@ + signed_decimal(v as int));
    } else {
        write_unsigned(out, v as u64);
    }
}

} // verus!
