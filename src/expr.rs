//! A recursive-descent evaluator for arithmetic over base-3 literals:
//!
//! ```text
//! expr   := term (('+' | '-') term)*
//! term   := factor (('*' | '/') factor)*
//! factor := '(' expr ')' | number
//! number := digit+
//! ```
//!
//! Values are computed while parsing. White space may stand before any token.
//! Division truncates toward zero; any result outside `i32` is an overflow.
use vstd::prelude::*;

use crate::codec::{
    digits_value, first_non_digit, in_i32, is_digit, lemma_digits_value_nonneg,
    lemma_first_non_digit, ParseError,
};
use crate::text::{chars_of, is_space, is_space_char};

verus! {

/// Index of the first non-white-space character of `s` at or after `p`
/// (`s.len()` when there is none).
pub open spec fn skip_ws(s: Seq<char>, p: int) -> int
    decreases s.len() - p,
{
    if 0 <= p < s.len() && is_space(s[p]) {
        skip_ws(s, p + 1)
    } else {
        p
    }
}

pub proof fn lemma_skip_ws(s: Seq<char>, p: int)
    ensures
        p <= skip_ws(s, p),
        p <= s.len() ==> skip_ws(s, p) <= s.len(),
        0 <= p ==> forall|k: int| p <= k < skip_ws(s, p) ==> is_space(#[trigger] s[k]),
        0 <= p && skip_ws(s, p) < s.len() ==> !is_space(s[skip_ws(s, p)]),
    decreases s.len() - p,
{
    if 0 <= p < s.len() && is_space(s[p]) {
        lemma_skip_ws(s, p + 1);
    }
}

/// Integer division rounding toward zero.
pub open spec fn div_toward_zero(a: int, b: int) -> int {
    let q = (if a < 0 {
        -a
    } else {
        a
    }) / (if b < 0 {
        -b
    } else {
        b
    });
    if (a < 0) == (b < 0) {
        q
    } else {
        -q
    }
}

/// A base-3 literal at `p` (after white space): its value and the position
/// after its last digit.
pub open spec fn number_at(s: Seq<char>, p: int) -> Result<(i32, int), ParseError> {
    let q = skip_ws(s, p);
    if q >= s.len() {
        Err(ParseError::UnexpectedChar('\0'))
    } else {
        let e = first_non_digit(s, q);
        if e == q {
            Err(ParseError::InvalidDigit(s[q]))
        } else {
            let v = digits_value(s.subrange(q, e));
            if v <= i32::MAX {
                Ok((v as i32, e))
            } else {
                Err(ParseError::Overflow)
            }
        }
    }
}

// Each production below gives the value it reads and the position after it.
// A production that succeeds always ends after its start; the comparisons of
// positions below make that visible to the termination check and never fail.

/// `expr` at `p`.
pub open spec fn expr_at(s: Seq<char>, p: int) -> Result<(i32, int), ParseError>
    decreases s.len() - p, 4int,
{
    match term_at(s, p) {
        Err(e) => Err(e),
        Ok((v, q)) => if p <= q <= s.len() {
            expr_rest(s, v, q)
        } else {
            Ok((v, q))
        },
    }
}

/// The `('+' | '-') term` tail of an `expr` whose value so far is `acc`,
/// from position `q`.
pub open spec fn expr_rest(s: Seq<char>, acc: i32, q: int) -> Result<(i32, int), ParseError>
    decreases s.len() - q, 3int,
{
    if q < 0 || q >= s.len() {
        Ok((acc, q))
    } else {
        let r = skip_ws(s, q);
        proof {
            lemma_skip_ws(s, q);
        }
        if r < s.len() && (s[r] == '+' || s[r] == '-') {
            match term_at(s, r + 1) {
                Err(e) => Err(e),
                Ok((v, q2)) => {
                    let t = if s[r] == '+' {
                        acc + v
                    } else {
                        acc - v
                    };
                    if !in_i32(t) {
                        Err(ParseError::Overflow)
                    } else if q < q2 <= s.len() {
                        expr_rest(s, t as i32, q2)
                    } else {
                        Ok((t as i32, q2))
                    }
                },
            }
        } else {
            Ok((acc, r))
        }
    }
}

/// `term` at `p`.
pub open spec fn term_at(s: Seq<char>, p: int) -> Result<(i32, int), ParseError>
    decreases s.len() - p, 2int,
{
    match factor_at(s, p) {
        Err(e) => Err(e),
        Ok((v, q)) => if p <= q <= s.len() {
            term_rest(s, v, q)
        } else {
            Ok((v, q))
        },
    }
}

/// The `('*' | '/') factor` tail of a `term` whose value so far is `acc`,
/// from position `q`.
pub open spec fn term_rest(s: Seq<char>, acc: i32, q: int) -> Result<(i32, int), ParseError>
    decreases s.len() - q, 1int,
{
    if q < 0 || q >= s.len() {
        Ok((acc, q))
    } else {
        let r = skip_ws(s, q);
        proof {
            lemma_skip_ws(s, q);
        }
        if r < s.len() && (s[r] == '*' || s[r] == '/') {
            match factor_at(s, r + 1) {
                Err(e) => Err(e),
                Ok((v, q2)) => {
                    if s[r] == '/' && v == 0 {
                        Err(ParseError::DivisionByZero)
                    } else {
                        let t = if s[r] == '*' {
                            acc * v
                        } else {
                            div_toward_zero(acc as int, v as int)
                        };
                        if !in_i32(t) {
                            Err(ParseError::Overflow)
                        } else if q < q2 <= s.len() {
                            term_rest(s, t as i32, q2)
                        } else {
                            Ok((t as i32, q2))
                        }
                    }
                },
            }
        } else {
            Ok((acc, r))
        }
    }
}

/// `factor` at `p`.
pub open spec fn factor_at(s: Seq<char>, p: int) -> Result<(i32, int), ParseError>
    decreases s.len() - p, 0int,
{
    let q = skip_ws(s, p);
    proof {
        lemma_skip_ws(s, p);
    }
    if q >= s.len() {
        Err(ParseError::UnexpectedChar('\0'))
    } else if s[q] == '(' {
        match expr_at(s, q + 1) {
            Err(e) => Err(e),
            Ok((v, r)) => {
                let r2 = skip_ws(s, r);
                if r2 >= s.len() || s[r2] != ')' {
                    Err(ParseError::MissingClosingParen)
                } else {
                    Ok((v, r2 + 1))
                }
            },
        }
    } else {
        number_at(s, q)
    }
}

/// `s` without the white space at either end.
pub open spec fn trimmed(s: Seq<char>) -> Seq<char> {
    let t = s.subrange(skip_ws(s, 0), s.len() as int);
    t.take(trim_end(t, t.len() as int))
}

/// Length of `s.take(j)` without its trailing white space.
pub open spec fn trim_end(s: Seq<char>, j: int) -> int
    decreases j,
{
    if 0 < j <= s.len() && is_space(s[j - 1]) {
        trim_end(s, j - 1)
    } else {
        j
    }
}

/// What evaluating the text `s` gives: the value of the whole (trimmed)
/// text read as an `expr`, with nothing but white space after it.
pub open spec fn evaluate(s: Seq<char>) -> Result<i32, ParseError> {
    let t = trimmed(s);
    if t.len() == 0 {
        Err(ParseError::EmptyExpression)
    } else {
        match expr_at(t, 0) {
            Err(e) => Err(e),
            Ok((v, q)) => {
                let r = skip_ws(t, q);
                if r < t.len() {
                    Err(ParseError::UnexpectedChar(t[r]))
                } else {
                    Ok(v)
                }
            },
        }
    }
}

/// `r`, with the cursor left at `p`, is what `expected` describes: the same
/// value and end position, or the same error.
pub open spec fn agrees(
    r: Result<i32, ParseError>,
    p: usize,
    expected: Result<(i32, int), ParseError>,
) -> bool {
    match expected {
        Ok((v, q)) => r == Ok::<i32, ParseError>(v) && p as int == q,
        Err(e) => r == Err::<i32, ParseError>(e),
    }
}

proof fn lemma_first_non_digit_at(s: Seq<char>, i: int, e: int)
    requires
        0 <= i <= e <= s.len(),
        forall|k: int| i <= k < e ==> is_digit(#[trigger] s[k]),
        e == s.len() || !is_digit(s[e]),
    ensures
        first_non_digit(s, i) == e,
    decreases e - i,
{
    if i < e {
        lemma_first_non_digit_at(s, i + 1, e);
    }
}

proof fn lemma_digits_value_prefix(s: Seq<char>, k: int)
    requires
        0 <= k <= s.len(),
    ensures
        digits_value(s.take(k)) <= digits_value(s),
    decreases s.len(),
{
    if k == s.len() {
        assert(s.take(k) == s);
    } else {
        assert(s.take(k) == s.drop_last().take(k));
        lemma_digits_value_prefix(s.drop_last(), k);
        lemma_digits_value_nonneg(s.drop_last());
    }
}

/// Moves `pos` past white space.
pub fn skip_whitespace(chars: &[char], pos: &mut usize)
    ensures
        *final(pos) == skip_ws(chars@, *old(pos) as int),
{
    let ghost entry = *pos as int;
    while *pos < chars.len() && is_space_char(chars[*pos])
        invariant
            entry <= *pos,
            *pos <= chars@.len() || *pos == entry,
            skip_ws(chars@, entry) == skip_ws(chars@, *pos as int),
        decreases chars@.len() - *pos,
    {
        *pos = *pos + 1;
    }
}

/// Reads a base-3 literal at `pos`, after white space.
pub fn parse_number(chars: &[char], pos: &mut usize) -> (r: Result<i32, ParseError>)
    ensures
        agrees(r, *final(pos), number_at(chars@, *old(pos) as int)),
        r is Ok ==> *old(pos) < *final(pos) <= chars@.len(),
        *old(pos) <= *final(pos),
        *old(pos) <= chars@.len() ==> *final(pos) <= chars@.len(),
{
    let ghost s = chars@;
    let ghost entry = *pos as int;
    proof {
        lemma_skip_ws(s, entry);
    }
    skip_whitespace(chars, pos);
    if *pos >= chars.len() {
        return Err(ParseError::UnexpectedChar('\0'));
    }
    let start = *pos;
    let mut value: i32 = 0;
    while *pos < chars.len() && (chars[*pos] == '0' || chars[*pos] == '1' || chars[*pos] == '2')
        invariant
            s == chars@,
            start <= *pos <= chars@.len(),
            start < chars@.len(),
            start as int == skip_ws(s, entry),
            entry <= start,
            entry == *old(pos),
            forall|k: int| start <= k < *pos ==> is_digit(#[trigger] s[k]),
            value as int == digits_value(s.subrange(start as int, *pos as int)),
            value >= 0,
        decreases chars@.len() - *pos,
    {
        let c = chars[*pos];
        let d: i64 = if c == '1' {
            1
        } else if c == '2' {
            2
        } else {
            0
        };
        let next: i64 = value as i64 * 3 + d;
        proof {
            let nxt = s.subrange(start as int, *pos + 1);
            assert(nxt.drop_last() == s.subrange(start as int, *pos as int));
            assert(nxt.last() == c);
            assert(digits_value(nxt) == next);
        }
        if next > 0x7fff_ffff {
            proof {
                lemma_first_non_digit(s, start as int);
                let e = first_non_digit(s, start as int);
                if e <= *pos {
                    assert(is_digit(s[e]));
                }
                let run = s.subrange(start as int, e);
                assert(run.take(*pos + 1 - start) == s.subrange(start as int, *pos + 1));
                lemma_digits_value_prefix(run, *pos + 1 - start);
                assert(digits_value(run) > i32::MAX);
                assert(e > start);
            }
            return Err(ParseError::Overflow);
        }
        value = next as i32;
        *pos = *pos + 1;
    }
    proof {
        lemma_first_non_digit_at(s, start as int, *pos as int);
    }
    if *pos == start {
        return Err(ParseError::InvalidDigit(chars[*pos]));
    }
    Ok(value)
}

/// Reads a `factor` at `pos`: a parenthesised `expr` or a literal.
pub fn parse_factor(chars: &[char], pos: &mut usize) -> (r: Result<i32, ParseError>)
    ensures
        agrees(r, *final(pos), factor_at(chars@, *old(pos) as int)),
        r is Ok ==> *old(pos) < *final(pos) <= chars@.len(),
        *old(pos) <= *final(pos),
        *old(pos) <= chars@.len() ==> *final(pos) <= chars@.len(),
    decreases chars@.len() - *old(pos), 0int,
{
    let ghost s = chars@;
    proof {
        lemma_skip_ws(s, *pos as int);
    }
    skip_whitespace(chars, pos);
    if *pos >= chars.len() {
        return Err(ParseError::UnexpectedChar('\0'));
    }
    if chars[*pos] == '(' {
        *pos = *pos + 1;
        let value = match parse_expr(chars, pos) {
            Ok(v) => v,
            Err(e) => {
                return Err(e);
            },
        };
        proof {
            lemma_skip_ws(s, *pos as int);
        }
        skip_whitespace(chars, pos);
        if *pos >= chars.len() || chars[*pos] != ')' {
            return Err(ParseError::MissingClosingParen);
        }
        *pos = *pos + 1;
        Ok(value)
    } else {
        parse_number(chars, pos)
    }
}

/// Reads a `term` at `pos`: factors joined by `*` and `/`, from the left.
pub fn parse_term(chars: &[char], pos: &mut usize) -> (r: Result<i32, ParseError>)
    ensures
        agrees(r, *final(pos), term_at(chars@, *old(pos) as int)),
        r is Ok ==> *old(pos) < *final(pos) <= chars@.len(),
        *old(pos) <= *final(pos),
        *old(pos) <= chars@.len() ==> *final(pos) <= chars@.len(),
    decreases chars@.len() - *old(pos), 2int,
{
    let ghost s = chars@;
    let ghost entry = *pos as int;
    let mut value = match parse_factor(chars, pos) {
        Ok(v) => v,
        Err(e) => {
            return Err(e);
        },
    };
    while *pos < chars.len()
        invariant_except_break
            term_at(s, entry) == term_rest(s, value, *pos as int),
        invariant
            s == chars@,
            entry == *old(pos),
            entry < *pos <= chars@.len(),
        ensures
            term_at(s, entry) == Ok::<(i32, int), ParseError>((value, *pos as int)),
        decreases chars@.len() - *pos,
    {
        let ghost q = *pos as int;
        proof {
            lemma_skip_ws(s, q);
        }
        skip_whitespace(chars, pos);
        if *pos < chars.len() && chars[*pos] == '*' {
            *pos = *pos + 1;
            let f = match parse_factor(chars, pos) {
                Ok(v) => v,
                Err(e) => {
                    return Err(e);
                },
            };
            proof {
                let (a, b) = (value as int, f as int);
                assert(-0x4000_0000_0000_0000 <= a * b <= 0x4000_0000_0000_0000) by (nonlinear_arith)
                    requires
                        -0x8000_0000 <= a <= 0x7fff_ffff,
                        -0x8000_0000 <= b <= 0x7fff_ffff,
                ;
            }
            let m: i64 = value as i64 * f as i64;
            if m < -0x8000_0000 || m > 0x7fff_ffff {
                return Err(ParseError::Overflow);
            }
            value = m as i32;
        } else if *pos < chars.len() && chars[*pos] == '/' {
            *pos = *pos + 1;
            let f = match parse_factor(chars, pos) {
                Ok(v) => v,
                Err(e) => {
                    return Err(e);
                },
            };
            if f == 0 {
                return Err(ParseError::DivisionByZero);
            }
            let a: i64 = value as i64;
            let b: i64 = f as i64;
            let abs_a: i64 = if a < 0 { -a } else { a };
            let abs_b: i64 = if b < 0 { -b } else { b };
            let mag: i64 = abs_a / abs_b;
            let t: i64 = if (a < 0) == (b < 0) { mag } else { -mag };
            if t < -0x8000_0000 || t > 0x7fff_ffff {
                return Err(ParseError::Overflow);
            }
            value = t as i32;
        } else {
            break;
        }
    }
    Ok(value)
}

/// Reads an `expr` at `pos`: terms joined by `+` and `-`, from the left.
pub fn parse_expr(chars: &[char], pos: &mut usize) -> (r: Result<i32, ParseError>)
    ensures
        agrees(r, *final(pos), expr_at(chars@, *old(pos) as int)),
        r is Ok ==> *old(pos) < *final(pos) <= chars@.len(),
        *old(pos) <= *final(pos),
        *old(pos) <= chars@.len() ==> *final(pos) <= chars@.len(),
    decreases chars@.len() - *old(pos), 4int,
{
    let ghost s = chars@;
    let ghost entry = *pos as int;
    let mut value = match parse_term(chars, pos) {
        Ok(v) => v,
        Err(e) => {
            return Err(e);
        },
    };
    while *pos < chars.len()
        invariant_except_break
            expr_at(s, entry) == expr_rest(s, value, *pos as int),
        invariant
            s == chars@,
            entry == *old(pos),
            entry < *pos <= chars@.len(),
        ensures
            expr_at(s, entry) == Ok::<(i32, int), ParseError>((value, *pos as int)),
        decreases chars@.len() - *pos,
    {
        let ghost q = *pos as int;
        proof {
            lemma_skip_ws(s, q);
        }
        skip_whitespace(chars, pos);
        if *pos < chars.len() && (chars[*pos] == '+' || chars[*pos] == '-') {
            let plus = chars[*pos] == '+';
            *pos = *pos + 1;
            let t = match parse_term(chars, pos) {
                Ok(v) => v,
                Err(e) => {
                    return Err(e);
                },
            };
            let sum: i64 = if plus {
                value as i64 + t as i64
            } else {
                value as i64 - t as i64
            };
            if sum < -0x8000_0000 || sum > 0x7fff_ffff {
                return Err(ParseError::Overflow);
            }
            value = sum as i32;
        } else {
            break;
        }
    }
    Ok(value)
}

/// Evaluates the text `expr`: white space at either end is ignored, an
/// empty text is an error, and the expression must fill all the rest.
pub fn tritjs_eval_expression(expr: &str) -> (r: Result<i32, ParseError>)
    ensures
        r == evaluate(expr@),
{
    let all = chars_of(expr);
    let ghost s = expr@;
    let mut lead: usize = 0;
    proof {
        lemma_skip_ws(s, 0);
    }
    skip_whitespace(all.as_slice(), &mut lead);
    let mut t: Vec<char> = Vec::new();
    let mut i: usize = lead;
    while i < all.len()
        invariant
            all@ == s,
            lead <= i <= all@.len(),
            t@ == s.subrange(lead as int, i as int),
        decreases all@.len() - i,
    {
        t.push(all[i]);
        i = i + 1;
    }
    let ghost full = t@;
    let mut end: usize = t.len();
    while end > 0 && is_space_char(t[end - 1])
        invariant
            t@ == full,
            end <= t@.len(),
            trim_end(full, full.len() as int) == trim_end(full, end as int),
        decreases end,
    {
        end = end - 1;
    }
    t.truncate(end);
    assert(t@ == trimmed(s));
    if t.len() == 0 {
        return Err(ParseError::EmptyExpression);
    }
    let mut pos: usize = 0;
    let value = match parse_expr(t.as_slice(), &mut pos) {
        Ok(v) => v,
        Err(e) => {
            return Err(e);
        },
    };
    skip_whitespace(t.as_slice(), &mut pos);
    if pos < t.len() {
        return Err(ParseError::UnexpectedChar(t[pos]));
    }
    Ok(value)
}

/// Evaluates one line of input as an expression; the same evaluation as
/// `tritjs_eval_expression`.
pub fn evaluate_ternary(expr: &str) -> (r: Result<i32, ParseError>)
    ensures
        r == evaluate(expr@),
{
    tritjs_eval_expression(expr)
}

} // verus!
