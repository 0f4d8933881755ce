use vstd::prelude::*;

verus! {

/// What a character is worth as a digit: `0` to `9`, then the letters, in either
/// case, from ten on. A character that is no digit in any base is worth 36.
pub open spec fn digit_value(c: u8) -> int {
    if 48 <= c <= 57 {
        c - 48
    } else if 97 <= c <= 122 {
        c - 87
    } else if 65 <= c <= 90 {
        c - 55
    } else {
        36
    }
}

/// Every character is a digit of the base.
pub open spec fn all_digits(s: Seq<u8>, radix: int) -> bool {
    forall|i: int| 0 <= i < s.len() ==> digit_value(#[trigger] s[i]) < radix
}

/// The number that the digits stand for in the base, the first digit weighing most.
pub open spec fn number_of(s: Seq<u8>, radix: int) -> int
    decreases s.len(),
{
    if s.len() == 0 {
        0
    } else {
        number_of(s.drop_last(), radix) * radix + digit_value(s.last())
    }
}

/// The number that a text of digits stands for, if it is one and is at most `max`.
/// An empty text is no number.
pub open spec fn parsed_digits(s: Seq<u8>, radix: int, max: int) -> Option<int> {
    if s.len() > 0 && all_digits(s, radix) && number_of(s, radix) <= max {
        Some(number_of(s, radix))
    } else {
        None
    }
}

/// The number that a text stands for: digits, with or without a plus sign before
/// them.
pub open spec fn parsed_unsigned(s: Seq<u8>, radix: int, max: int) -> Option<int> {
    if s.len() > 0 && s[0] == 43 {
        parsed_digits(s.skip(1), radix, max)
    } else {
        parsed_digits(s, radix, max)
    }
}

/// The number that a text stands for: digits, with or without a sign before them.
/// It must lie between `-below` and `max`.
pub open spec fn parsed_signed(s: Seq<u8>, below: int, max: int) -> Option<int> {
    if s.len() > 0 && s[0] == 45 {
        match parsed_digits(s.skip(1), 10, below) {
            Some(v) => Some(-v),
            None => None,
        }
    } else {
        parsed_unsigned(s, 10, max)
    }
}

/// A number is not less than the number of its first digits.
pub proof fn lemma_number_grows(s: Seq<u8>, radix: int, i: int)
    requires
        radix >= 1,
        0 <= i <= s.len(),
    ensures
        0 <= number_of(s.take(i), radix) <= number_of(s, radix),
    decreases s.len() - i,
{
    if i == s.len() {
        assert(s.take(i) =~= s);
        lemma_number_positive(s, radix);
    } else {
        let front = s.drop_last();
        lemma_number_grows(front, radix, i);
        assert(front.take(i) =~= s.take(i));
        let n = number_of(front, radix);
        assert(n * radix >= n) by (nonlinear_arith)
            requires
                n >= 0,
                radix >= 1,
        ;
    }
}

/// No text of digits stands for a negative number.
pub proof fn lemma_number_positive(s: Seq<u8>, radix: int)
    requires
        radix >= 1,
    ensures
        0 <= number_of(s, radix),
    decreases s.len(),
{
    if s.len() > 0 {
        lemma_number_positive(s.drop_last(), radix);
        let n = number_of(s.drop_last(), radix);
        assert(n * radix >= 0) by (nonlinear_arith)
            requires
                n >= 0,
                radix >= 1,
        ;
    }
}

/// What a character is worth as a digit.
pub fn digit_of(c: u8) -> (d: u64)
    ensures
        d == digit_value(c),
{
    if 48 <= c && c <= 57 {
        (c - 48) as u64
    } else if 97 <= c && c <= 122 {
        (c - 87) as u64
    } else if 65 <= c && c <= 90 {
        (c - 55) as u64
    } else {
        36
    }
}

/// Reads a number from its digits in the base `radix`. A text that is empty, holds
/// another character, or stands for more than `max` is no number.
pub fn parse_digits(s: &[u8], radix: u64, max: u64) -> (r: Option<u64>)
    requires
        2 <= radix <= 36,
    ensures
        r matches Some(v) ==> parsed_digits(s@, radix as int, max as int) == Some(v as int),
        r is None ==> parsed_digits(s@, radix as int, max as int) is None,
{
    if s.len() == 0 {
        return None;
    }
    let mut acc: u64 = 0;
    let mut i: usize = 0;
    proof {
        assert(s@.take(0) =~= Seq::<u8>::empty());
    }
    while i < s.len()
        invariant
            2 <= radix <= 36,
            i <= s.len(),
            s.len() > 0,
            all_digits(s@.take(i as int), radix as int),
            acc == number_of(s@.take(i as int), radix as int),
            acc <= max,
        decreases s.len() - i,
    {
        let d = digit_of(s[i]);
        if d >= radix {
            return None;
        }
        assert(acc * radix <= 0xffff_ffff_ffff_ffff * 36) by (nonlinear_arith)
            requires
                acc <= 0xffff_ffff_ffff_ffff,
                radix <= 36,
        ;
        let next: u128 = acc as u128 * radix as u128 + d as u128;
        proof {
            let now = s@.take(i + 1);
            assert(now.drop_last() =~= s@.take(i as int));
            assert(now.last() == s@[i as int]);
            assert(next == number_of(now, radix as int));
            assert forall|t: int| 0 <= t < now.len() implies digit_value(#[trigger] now[t])
                < radix by {
                if t < i {
                    assert(s@.take(i as int)[t] == now[t]);
                }
            }
            lemma_number_grows(s@, radix as int, i + 1);
        }
        if next > max as u128 {
            return None;
        }
        acc = next as u64;
        i += 1;
    }
    proof {
        assert(s@.take(i as int) =~= s@);
    }
    Some(acc)
}

/// Reads a number from digits in the base `radix`, with or without a plus sign
/// before them.
pub fn parse_unsigned(s: &[u8], radix: u64, max: u64) -> (r: Option<u64>)
    requires
        2 <= radix <= 36,
    ensures
        r matches Some(v) ==> parsed_unsigned(s@, radix as int, max as int) == Some(v as int),
        r is None ==> parsed_unsigned(s@, radix as int, max as int) is None,
{
    if s.len() > 0 && s[0] == 43 {
        proof {
            assert(s@.subrange(1, s@.len() as int) =~= s@.skip(1));
        }
        parse_digits(&s[1..s.len()], radix, max)
    } else {
        parse_digits(s, radix, max)
    }
}

/// Reads a 64-bit integer from decimal digits, with or without a sign before them.
pub fn parse_signed(s: &[u8]) -> (r: Option<i64>)
    ensures
        r matches Some(v) ==> parsed_signed(s@, -(i64::MIN as int), i64::MAX as int) == Some(
            v as int,
        ),
        r is None ==> parsed_signed(s@, -(i64::MIN as int), i64::MAX as int) is None,
{
    if s.len() > 0 && s[0] == 45 {
        proof {
            assert(s@.subrange(1, s@.len() as int) =~= s@.skip(1));
        }
        match parse_digits(&s[1..s.len()], 10, 0x8000_0000_0000_0000) {
            Some(v) => Some((-(v as i128)) as i64),
            None => None,
        }
    } else {
        match parse_unsigned(s, 10, 0x7fff_ffff_ffff_ffff) {
            Some(v) => Some(v as i64),
            None => None,
        }
    }
}

} // verus!
