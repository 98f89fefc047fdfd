//! Decimal integers as text.
use crate::text::to_text;
use vstd::prelude::*;
use vstd::slice::slice_subrange;

verus! {

/// Whether a character is a decimal digit.
pub open spec fn is_digit(c: char) -> bool {
    '0' <= c && c <= '9'
}

/// The digit for a number below ten.
pub open spec fn digit(n: nat) -> char {
    (48 + n) as u8 as char
}

/// The number a digit stands for.
pub open spec fn digit_value(c: char) -> nat {
    (c as u8 - 48) as nat
}

/// Whether a text is one or more decimal digits.
pub open spec fn all_digits(s: Seq<char>) -> bool {
    s.len() > 0 && forall|i: int| 0 <= i < s.len() ==> is_digit(#[trigger] s[i])
}

/// The number that a run of digits stands for.
pub open spec fn digits_value(s: Seq<char>) -> nat
    decreases s.len(),
{
    if s.len() == 0 {
        0
    } else {
        digits_value(s.drop_last()) * 10 + digit_value(s.last())
    }
}

/// The decimal text of a number.
pub open spec fn decimal(n: nat) -> Seq<char>
    decreases n,
{
    if n < 10 {
        seq![digit(n)]
    } else {
        decimal(n / 10).push(digit(n % 10))
    }
}

/// The decimal text of an integer, with a minus sign where it is negative.
pub open spec fn decimal_int(i: int) -> Seq<char> {
    if i < 0 {
        seq!['-'] + decimal((-i) as nat)
    } else {
        decimal(i as nat)
    }
}

/// The integer between `low` and `high` that a text spells: digits, after a
/// `+` or (where negative integers are in range) a `-`.
pub open spec fn integer_in(s: Seq<char>, low: int, high: int) -> Option<int> {
    let minus = s.len() > 0 && s[0] == '-' && low < 0;
    let plus = s.len() > 0 && s[0] == '+';
    let body = if minus || plus {
        s.skip(1)
    } else {
        s
    };
    let value = if minus {
        -(digits_value(body) as int)
    } else {
        digits_value(body) as int
    };
    if all_digits(body) && low <= value <= high {
        Some(value)
    } else {
        None
    }
}

/// Longer runs of digits never stand for smaller numbers.
proof fn prefix_is_no_larger(s: Seq<char>, n: int)
    requires
        0 <= n <= s.len(),
    ensures
        digits_value(s.take(n)) <= digits_value(s),
    decreases s.len(),
{
    if n < s.len() {
        assert(s.drop_last().take(n) == s.take(n));
        prefix_is_no_larger(s.drop_last(), n);
    } else {
        assert(s.take(n) == s);
    }
}

/// The number a run of digits stands for, where it is at most `limit`.
fn digits_up_to(chars: &[char], limit: u64) -> (r: Option<u64>)
    ensures
        r is Some <==> all_digits(chars@) && digits_value(chars@) <= limit,
        r matches Some(v) ==> v == digits_value(chars@),
{
    if chars.len() == 0 {
        return None;
    }
    let mut value: u64 = 0;
    for i in 0..chars.len()
        invariant
            forall|j: int| 0 <= j < i ==> is_digit(#[trigger] chars@[j]),
            value == digits_value(chars@.take(i as int)),
            value <= limit,
    {
        let c = chars[i];
        if c < '0' || '9' < c {
            assert(!is_digit(chars@[i as int]));
            return None;
        }
        let d: u64 = (c as u8 - 48) as u64;
        proof {
            let next = chars@.take(i + 1);
            assert(next.drop_last() == chars@.take(i as int));
            assert(next.last() == c);
            assert(digits_value(next) == value * 10 + d);
            prefix_is_no_larger(chars@, i + 1);
        }
        if value > (u64::MAX - d) / 10 || value * 10 + d > limit {
            return None;
        }
        value = value * 10 + d;
    }
    assert(chars@.take(chars@.len() as int) == chars@);
    Some(value)
}

/// Reads a signed 64-bit integer.
pub fn parse_i64(chars: &[char]) -> (r: Option<i64>)
    ensures
        r is Some <==> integer_in(chars@, i64::MIN as int, i64::MAX as int) is Some,
        r matches Some(v) ==> integer_in(chars@, i64::MIN as int, i64::MAX as int) == Some(
            v as int,
        ),
{
    let signed = chars.len() > 0 && (chars[0] == '-' || chars[0] == '+');
    let minus = chars.len() > 0 && chars[0] == '-';
    let body = if signed {
        slice_subrange(chars, 1, chars.len())
    } else {
        chars
    };
    assert(signed ==> body@ == chars@.skip(1));
    if minus {
        match digits_up_to(body, 0x8000_0000_0000_0000) {
            Some(v) => Some((-(v as i128)) as i64),
            None => None,
        }
    } else {
        match digits_up_to(body, 0x7fff_ffff_ffff_ffff) {
            Some(v) => Some(v as i64),
            None => None,
        }
    }
}

/// Reads an unsigned integer of at most `limit`.
pub fn parse_u64_up_to(chars: &[char], limit: u64) -> (r: Option<u64>)
    ensures
        r is Some <==> integer_in(chars@, 0, limit as int) is Some,
        r matches Some(v) ==> integer_in(chars@, 0, limit as int) == Some(v as int),
{
    let plus = chars.len() > 0 && chars[0] == '+';
    let body = if plus {
        slice_subrange(chars, 1, chars.len())
    } else {
        chars
    };
    assert(plus ==> body@ == chars@.skip(1));
    digits_up_to(body, limit)
}

/// Appends the decimal digits of `n`.
fn push_digits(out: &mut Vec<char>, n: u64)
    ensures
        final(out)@ == old(out)@ + decimal(n as nat),
    decreases n,
{
    if n >= 10 {
        push_digits(out, n / 10);
    }
    out.push((48 + (n % 10) as u8) as char);
    assert(out@ == old(out)@ + decimal(n as nat));
}

/// The decimal text of an unsigned integer.
pub fn u64_text(n: u64) -> (r: String)
    ensures
        r@ == decimal(n as nat),
{
    let mut out: Vec<char> = Vec::new();
    push_digits(&mut out, n);
    assert(out@ == decimal(n as nat));
    to_text(&out)
}

/// The decimal text of a signed integer.
pub fn i64_text(i: i64) -> (r: String)
    ensures
        r@ == decimal_int(i as int),
{
    let mut out: Vec<char> = Vec::new();
    if i < 0 {
        out.push('-');
    }
    let magnitude: u64 = if i < 0 {
        (-(i as i128)) as u64
    } else {
        i as u64
    };
    push_digits(&mut out, magnitude);
    assert(out@ == decimal_int(i as int));
    to_text(&out)
}

/// The decimal text of a number is digits, and stands for that number.
pub proof fn decimal_is_digits(n: nat)
    ensures
        all_digits(decimal(n)),
        digits_value(decimal(n)) == n,
    decreases n,
{
    if n < 10 {
        assert(decimal(n).drop_last() == Seq::<char>::empty());
        assert(digits_value(Seq::<char>::empty()) == 0);
    } else {
        decimal_is_digits(n / 10);
        assert(decimal(n).drop_last() == decimal(n / 10));
        assert forall|i: int| 0 <= i < decimal(n).len() implies is_digit(
            #[trigger] decimal(n)[i],
        ) by {
            if i < decimal(n / 10).len() {
                assert(decimal(n)[i] == decimal(n / 10)[i]);
            }
        }
    }
}

/// Reading the decimal text of an integer gives that integer back.
pub proof fn decimal_int_reads_back(i: int, low: int, high: int)
    requires
        low <= i <= high,
    ensures
        integer_in(decimal_int(i), low, high) == Some(i),
{
    let s = decimal_int(i);
    if i < 0 {
        decimal_is_digits((-i) as nat);
        assert(s.skip(1) == decimal((-i) as nat));
    } else {
        decimal_is_digits(i as nat);
        assert(is_digit(s[0]));
    }
}

/// What a text turned out to be when it was read as a number that may have a
/// fraction.
pub enum Reading {
    /// No number.
    NotANumber,
    /// A number that is not above zero; the number as it is shown.
    NotPositive(String),
    /// A number above zero.
    Positive,
}

/// Each digit is worth ten times what it is worth one place further on: a run of
/// digits stands for its first digit, times a power of ten, and the others.
pub proof fn digits_count_by_place(s: Seq<char>, c: char)
    requires
        is_digit(c),
    ensures
        digits_value(seq![c]) == c as u32 - '0' as u32,
        digits_value(s.push(c)) == 10 * digits_value(s) + (c as u32 - '0' as u32),
{
    assert(s.push(c).drop_last() == s);
    assert(seq![c].drop_last() == Seq::<char>::empty());
    assert(digits_value(Seq::<char>::empty()) == 0);
}

/// A text spells an integer exactly where it is a run of digits that stands for
/// it, perhaps behind a sign, and the integer is in range. A minus sign is read
/// only where negative integers are.
pub proof fn integers_are_spelled_with_digits(s: Seq<char>, low: int, high: int, i: int)
    requires
        s.len() > 0,
    ensures
        is_digit(s[0]) ==> (integer_in(s, low, high) == Some(i) <==> all_digits(s) && i
            == digits_value(s) && low <= i <= high),
        s[0] == '+' ==> (integer_in(s, low, high) == Some(i) <==> all_digits(s.skip(1)) && i
            == digits_value(s.skip(1)) && low <= i <= high),
        s[0] == '-' && low < 0 ==> (integer_in(s, low, high) == Some(i) <==> all_digits(s.skip(1))
            && i == -digits_value(s.skip(1)) && low <= i <= high),
        !is_digit(s[0]) && s[0] != '+' && !(s[0] == '-' && low < 0) ==> integer_in(s, low, high)
            is None,
        integer_in(Seq::<char>::empty(), low, high) is None,
{
}

/// A text is a run of digits exactly where each of its characters is between 0
/// and 9, and it has one.
pub proof fn runs_of_digits(s: Seq<char>)
    ensures
        all_digits(s) <==> s.len() > 0 && forall|i: int|
            0 <= i < s.len() ==> '0' <= (#[trigger] s[i]) <= '9',
{
    if all_digits(s) {
        assert forall|i: int| 0 <= i < s.len() implies '0' <= (#[trigger] s[i]) <= '9' by {
            assert(is_digit(s[i]));
        }
    }
}

/// No digit comes first in vain: the decimal text of a number that is not zero
/// does not begin with a zero. A minus sign stands before a negative integer.
pub proof fn decimals_have_no_leading_zero(n: nat)
    ensures
        n > 0 ==> decimal(n)[0] != '0',
        decimal(n).len() > 0,
        n > 0 ==> decimal_int(-(n as int)) == seq!['-'] + decimal(n),
        decimal_int(n as int) == decimal(n),
    decreases n,
{
    if n >= 10 {
        decimals_have_no_leading_zero(n / 10);
        assert(decimal(n)[0] == decimal(n / 10)[0]);
    }
}

} // verus!
