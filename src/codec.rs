//! Signed integers written in base 3: a digit string with an optional
//! leading `-`.
use vstd::prelude::*;

use crate::text::{chars_of, push_char};

verus! {

/// Why a base-3 literal or an expression could not be read or evaluated.
#[derive(Debug, Clone, Copy, PartialEq, Eq, Structural)]
pub enum ParseError {
    /// A character stood where a base-3 digit was expected.
    InvalidDigit(char),
    /// A character stood where none may stand; `'\0'` when the input ended early.
    UnexpectedChar(char),
    /// A `(` was never closed.
    MissingClosingParen,
    /// A divisor evaluated to zero.
    DivisionByZero,
    /// The input held nothing (or only white space).
    EmptyExpression,
    /// A literal or an intermediate result left the range of `i32`.
    Overflow,
}

/// One of the three base-3 digits.
pub open spec fn is_digit(c: char) -> bool {
    c == '0' || c == '1' || c == '2'
}

/// The value of a digit character.
pub open spec fn digit_value(c: char) -> int {
    if c == '1' {
        1
    } else if c == '2' {
        2
    } else {
        0
    }
}

/// The digit character of `d`, for `d` in `0..3`.
pub open spec fn digit_char(d: int) -> char {
    if d == 1 {
        '1'
    } else if d == 2 {
        '2'
    } else {
        '0'
    }
}

/// Whether every character of `s` is a digit.
pub open spec fn all_digits(s: Seq<char>) -> bool {
    forall|i: int| 0 <= i < s.len() ==> #[trigger] is_digit(s[i])
}

/// The value of a digit string read most significant digit first.
pub open spec fn digits_value(s: Seq<char>) -> int
    decreases s.len(),
{
    if s.len() == 0 {
        0
    } else {
        digits_value(s.drop_last()) * 3 + digit_value(s.last())
    }
}

/// The base-3 digits of `n`, without leading zeros (empty for zero).
pub open spec fn digits_of(n: nat) -> Seq<char>
    decreases n,
{
    if n == 0 {
        Seq::empty()
    } else {
        digits_of(n / 3).push(digit_char((n % 3) as int))
    }
}

/// The canonical base-3 text of `n`: `"0"` for zero, otherwise the digits
/// without leading zeros, after a `-` when `n` is negative.
pub open spec fn to_ternary(n: int) -> Seq<char> {
    if n == 0 {
        seq!['0']
    } else if n < 0 {
        seq!['-'] + digits_of((-n) as nat)
    } else {
        digits_of(n as nat)
    }
}

/// Index of the first character of `s` at or after `i` that is no digit,
/// or `s.len()` when there is none.
pub open spec fn first_non_digit(s: Seq<char>, i: int) -> int
    decreases s.len() - i,
{
    if i < 0 || i >= s.len() {
        s.len() as int
    } else if !is_digit(s[i]) {
        i
    } else {
        first_non_digit(s, i + 1)
    }
}

/// Whether `v` is a value of `i32`.
pub open spec fn in_i32(v: int) -> bool {
    i32::MIN <= v <= i32::MAX
}

/// What reading `s` as a signed base-3 literal gives: an optional `-`,
/// then one or more digits. A text with no digits (empty, or a sign alone)
/// is empty; the first non-digit after the sign is reported; a value
/// outside `i32` is an overflow.
pub open spec fn from_ternary(s: Seq<char>) -> Result<i32, ParseError> {
    if s.len() == 0 || s == seq!['-'] {
        Err(ParseError::EmptyExpression)
    } else {
        let neg = s[0] == '-';
        let body = if neg {
            s.drop_first()
        } else {
            s
        };
        let bad = first_non_digit(body, 0);
        if bad < body.len() {
            Err(ParseError::InvalidDigit(body[bad]))
        } else {
            let v = if neg {
                -digits_value(body)
            } else {
                digits_value(body)
            };
            if in_i32(v) {
                Ok(v as i32)
            } else {
                Err(ParseError::Overflow)
            }
        }
    }
}

pub proof fn lemma_first_non_digit(s: Seq<char>, i: int)
    requires
        0 <= i <= s.len(),
    ensures
        i <= first_non_digit(s, i) <= s.len(),
        forall|k: int| i <= k < first_non_digit(s, i) ==> is_digit(#[trigger] s[k]),
        first_non_digit(s, i) < s.len() ==> !is_digit(s[first_non_digit(s, i)]),
    decreases s.len() - i,
{
    if i < s.len() && is_digit(s[i]) {
        lemma_first_non_digit(s, i + 1);
    }
}

pub proof fn lemma_digits_value_nonneg(s: Seq<char>)
    ensures
        digits_value(s) >= 0,
    decreases s.len(),
{
    if s.len() > 0 {
        lemma_digits_value_nonneg(s.drop_last());
    }
}

pub proof fn lemma_digits_of(n: nat)
    ensures
        all_digits(digits_of(n)),
        digits_value(digits_of(n)) == n,
        n > 0 ==> digits_of(n).len() > 0 && digits_of(n)[0] != '0',
    decreases n,
{
    if n > 0 {
        lemma_digits_of(n / 3);
        let d = digits_of(n);
        assert(d.drop_last() == digits_of(n / 3));
        if n / 3 == 0 {
            assert(d.len() == 1);
        }
    }
}

proof fn lemma_first_non_digit_none(s: Seq<char>, i: int)
    requires
        0 <= i <= s.len(),
        all_digits(s),
    ensures
        first_non_digit(s, i) == s.len(),
    decreases s.len() - i,
{
    if i < s.len() {
        lemma_first_non_digit_none(s, i + 1);
    }
}

/// Reading back the canonical text of an `i32` gives the same value.
pub proof fn lemma_ternary_round_trip(n: i32)
    ensures
        from_ternary(to_ternary(n as int)) == Ok::<i32, ParseError>(n),
{
    let t = to_ternary(n as int);
    if n == 0 {
        assert(digits_value(t) == digits_value(t.drop_last()) * 3 + 0);
        lemma_first_non_digit_none(t, 0);
    } else if n < 0 {
        let m = (-n) as nat;
        lemma_digits_of(m);
        assert(t.drop_first() == digits_of(m));
        lemma_first_non_digit_none(digits_of(m), 0);
    } else {
        lemma_digits_of(n as nat);
        lemma_first_non_digit_none(t, 0);
    }
}

/// The canonical base-3 text of `n`.
pub fn int_to_ternary(n: i32) -> (r: String)
    ensures
        r@ == to_ternary(n as int),
{
    let mut r = String::new();
    if n == 0 {
        push_char(&mut r, '0');
        return r;
    }
    let ghost m: nat = if n < 0 { (-n) as nat } else { n as nat };
    let mut num: i64 = n as i64;
    if num < 0 {
        num = -num;
    }
    // least significant digit first
    let mut low_first: Vec<char> = Vec::new();
    while num > 0
        invariant
            0 <= num <= m,
            digits_of(m) == digits_of(num as nat) + Seq::new(
                low_first.len() as nat,
                |i: int| low_first[low_first.len() - 1 - i],
            ),
        decreases num,
    {
        let d = num % 3;
        let c = if d == 1 {
            '1'
        } else if d == 2 {
            '2'
        } else {
            '0'
        };
        let ghost before = low_first@;
        low_first.push(c);
        proof {
            let rev_old = Seq::new(before.len() as nat, |i: int| before[before.len() - 1 - i]);
            let rev_new = Seq::new(
                low_first.len() as nat,
                |i: int| low_first[low_first.len() - 1 - i],
            );
            assert(rev_new == seq![c] + rev_old);
            assert(digits_of(num as nat) == digits_of((num / 3) as nat).push(c));
        }
        num = num / 3;
    }
    if n < 0 {
        push_char(&mut r, '-');
    }
    let ghost head = r@;
    let mut k: usize = low_first.len();
    while k > 0
        invariant
            k <= low_first.len(),
            r@ == head + Seq::new(
                (low_first.len() - k) as nat,
                |i: int| low_first[low_first.len() - 1 - i],
            ),
        decreases k,
    {
        k = k - 1;
        push_char(&mut r, low_first[k]);
        assert(r@ == head + Seq::new(
            (low_first.len() - k) as nat,
            |i: int| low_first[low_first.len() - 1 - i],
        ));
    }
    assert(r@ == head + digits_of(m));
    r
}

/// Reads a signed base-3 literal from its characters.
pub fn ternary_from_chars(chars: &Vec<char>) -> (r: Result<i32, ParseError>)
    ensures
        r == from_ternary(chars@),
{
    let ghost s = chars@;
    if chars.len() == 0 {
        return Err(ParseError::EmptyExpression);
    }
    let neg = chars[0] == '-';
    if neg && chars.len() == 1 {
        assert(s =~= seq!['-']);
        return Err(ParseError::EmptyExpression);
    }
    assert(s != seq!['-']);
    let start: usize = if neg { 1 } else { 0 };
    let ghost body = if neg { s.drop_first() } else { s };
    // the digits read so far are worth more than any i32 can hold
    let mut big = false;
    let mut value: i64 = 0;
    let mut i: usize = start;
    while i < chars.len()
        invariant
            chars@ == s,
            start <= i <= chars.len(),
            start == (if neg { 1int } else { 0int }),
            body == s.subrange(start as int, s.len() as int),
            neg == (s[0] == '-'),
            s.len() > 0,
            forall|k: int| 0 <= k < i - start ==> is_digit(#[trigger] body[k]),
            big ==> digits_value(body.take(i - start)) > 0x8000_0000,
            value >= 0,
            !big ==> value == digits_value(body.take(i - start)) && value <= 0x8000_0000,
        decreases chars.len() - i,
    {
        let c = chars[i];
        if !(c == '0' || c == '1' || c == '2') {
            proof {
                lemma_first_non_digit(body, 0);
                assert(body[i - start] == c);
                let f = first_non_digit(body, 0);
                if f < i - start {
                    assert(is_digit(body[f]));
                } else if f > i - start {
                    assert(is_digit(body[i - start]));
                }
                assert(f == i - start);
                assert(body == (if s[0] == '-' { s.drop_first() } else { s }));
            }
            return Err(ParseError::InvalidDigit(c));
        }
        let d: i64 = if c == '1' { 1 } else if c == '2' { 2 } else { 0 };
        proof {
            let pre = body.take(i - start);
            let nxt = body.take(i + 1 - start);
            assert(nxt.drop_last() == pre);
            assert(nxt.last() == c);
            lemma_digits_value_nonneg(pre);
        }
        if !big {
            value = value * 3 + d;
            if value > 0x8000_0000 {
                big = true;
            }
        }
        i = i + 1;
    }
    proof {
        assert(body.take(i - start) == body);
        lemma_first_non_digit(body, 0);
        if first_non_digit(body, 0) < body.len() {
            let f = first_non_digit(body, 0);
            assert(is_digit(body[f]));
        }
    }
    if big {
        return Err(ParseError::Overflow);
    }
    let v: i64 = if neg { -value } else { value };
    if v > 0x7fff_ffff {
        return Err(ParseError::Overflow);
    }
    Ok(v as i32)
}

/// Reads a signed base-3 literal: an optional `-`, then digits.
pub fn parse_ternary(s: &str) -> (r: Result<i32, ParseError>)
    ensures
        r == from_ternary(s@),
{
    let chars = chars_of(s);
    ternary_from_chars(&chars)
}

} // verus!
