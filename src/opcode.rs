//! Opcodes written as their base-3 text followed by one checksum digit.
use vstd::prelude::*;

use crate::codec::{
    digit_char, digit_value, int_to_ternary, is_digit, lemma_digits_of, to_ternary,
};
use crate::text::{chars_of, push_char};

verus! {

/// Sum of the values of the digit characters of `s`; any other character
/// (such as a sign) counts for nothing.
pub open spec fn digit_sum(s: Seq<char>) -> int
    decreases s.len(),
{
    if s.len() == 0 {
        0
    } else {
        digit_sum(s.drop_last()) + if is_digit(s.last()) {
            digit_value(s.last())
        } else {
            0
        }
    }
}

/// The checksum of `s`: its digit sum modulo 3.
pub open spec fn checksum(s: Seq<char>) -> int {
    digit_sum(s) % 3
}

/// The encoding of opcode `n`: its base-3 text, then its checksum digit.
pub open spec fn encode_opcode(n: int) -> Seq<char> {
    to_ternary(n).push(digit_char(checksum(to_ternary(n))))
}

/// Whether `s` is at least two characters long and ends with the checksum
/// digit of the rest.
pub open spec fn opcode_valid(s: Seq<char>) -> bool {
    s.len() >= 2 && is_digit(s.last()) && checksum(s.drop_last()) == digit_value(s.last())
}

/// The checksum of the first `end` characters of `chars`.
fn checksum_of(chars: &Vec<char>, end: usize) -> (r: u32)
    requires
        end <= chars@.len(),
    ensures
        r as int == checksum(chars@.take(end as int)),
{
    let mut acc: u32 = 0;
    let mut i: usize = 0;
    while i < end
        invariant
            i <= end <= chars@.len(),
            acc as int == checksum(chars@.take(i as int)),
            acc < 3,
        decreases end - i,
    {
        let c = chars[i];
        let d: u32 = if c == '1' {
            1
        } else if c == '2' {
            2
        } else {
            0
        };
        proof {
            let pre = chars@.take(i as int);
            let nxt = chars@.take(i + 1);
            assert(nxt.drop_last() == pre);
            assert(nxt.last() == c);
            let x = digit_sum(pre);
            assert(digit_sum(nxt) == x + d);
            assert((x + d) % 3 == ((x % 3) + d) % 3) by (nonlinear_arith);
        }
        acc = (acc + d) % 3;
        i = i + 1;
    }
    acc
}

/// Encodes `opcode` as its base-3 text followed by its checksum digit.
pub fn discrete_opcode_encode(opcode: i32) -> (r: String)
    ensures
        r@ == encode_opcode(opcode as int),
{
    let mut t = int_to_ternary(opcode);
    let chars = chars_of(t.as_str());
    let sum = checksum_of(&chars, chars.len());
    assert(chars@.take(chars@.len() as int) == chars@);
    let c = if sum == 1 {
        '1'
    } else if sum == 2 {
        '2'
    } else {
        '0'
    };
    push_char(&mut t, c);
    t
}

/// Whether `encoded` ends with the right checksum digit for the rest.
pub fn discrete_opcode_validate(encoded: &str) -> (r: bool)
    ensures
        r == opcode_valid(encoded@),
{
    let chars = chars_of(encoded);
    if chars.len() < 2 {
        return false;
    }
    let last = chars[chars.len() - 1];
    if !(last == '0' || last == '1' || last == '2') {
        return false;
    }
    let sum = checksum_of(&chars, chars.len() - 1);
    let want: u32 = if last == '1' {
        1
    } else if last == '2' {
        2
    } else {
        0
    };
    proof {
        assert(chars@.take(chars@.len() - 1) == encoded@.drop_last());
    }
    sum == want
}

proof fn lemma_to_ternary_nonempty(n: int)
    ensures
        to_ternary(n).len() >= 1,
{
    if n < 0 {
        lemma_digits_of((-n) as nat);
    } else if n > 0 {
        lemma_digits_of(n as nat);
    }
}

/// Every encoded opcode passes validation.
pub proof fn lemma_encode_validates(n: i32)
    ensures
        opcode_valid(encode_opcode(n as int)),
{
    let t = to_ternary(n as int);
    lemma_to_ternary_nonempty(n as int);
    let e = encode_opcode(n as int);
    assert(e.drop_last() == t);
}

/// Replacing the checksum digit of an encoded opcode by another digit makes
/// it fail validation.
pub proof fn lemma_changed_checksum_fails(n: i32, d: char)
    requires
        is_digit(d),
        d != encode_opcode(n as int).last(),
    ensures
        !opcode_valid(encode_opcode(n as int).drop_last().push(d)),
{
    let t = to_ternary(n as int);
    let e = encode_opcode(n as int);
    let f = e.drop_last().push(d);
    assert(e.drop_last() == t);
    assert(f.drop_last() == t);
}

} // verus!
