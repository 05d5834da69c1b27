//! Natural numbers of any size, held as base 2^32 digits, least significant
//! first. The arithmetic is that of `num::BigUint`.

use vstd::prelude::*;
use num::BigUint;
use std::str::FromStr;
use crate::decimal::{decimal_text, digits_value, is_digit, unsigned_body};

verus! {

/// The base of the digits: 2^32.
pub open spec fn limb_base() -> nat {
    0x1_0000_0000
}

/// The number that base 2^32 digits denote, least significant digit first.
pub open spec fn limbs_value(limbs: Seq<u32>) -> nat
    decreases limbs.len(),
{
    if limbs.len() == 0 {
        0
    } else {
        limbs[0] as nat + limb_base() * limbs_value(limbs.drop_first())
    }
}

/// The text without its underscores.
pub open spec fn without_underscores(s: Seq<char>) -> Seq<char>
    decreases s.len(),
{
    if s.len() == 0 {
        Seq::<char>::empty()
    } else if s.last() == '_' {
        without_underscores(s.drop_last())
    } else {
        without_underscores(s.drop_last()).push(s.last())
    }
}

/// The decimal literals of big numbers: an optional `+`, then a digit, then
/// digits and underscores.
pub open spec fn is_big_literal(s: Seq<char>) -> bool {
    let body = unsigned_body(s);
    &&& body.len() > 0
    &&& body[0] != '_'
    &&& forall|i: int| 0 <= i < body.len() ==> is_digit(#[trigger] body[i]) || body[i] == '_'
}

/// The number that a decimal literal denotes: that of its digits.
pub open spec fn big_literal_value(s: Seq<char>) -> nat {
    digits_value(without_underscores(unsigned_body(s)))
}

/// Text that is made of digits has no underscores to take out.
pub proof fn lemma_without_underscores_of_digits(s: Seq<char>)
    requires
        crate::decimal::all_digits(s),
    ensures
        without_underscores(s) == s,
    decreases s.len(),
{
    if s.len() > 0 {
        assert(is_digit(s[s.len() - 1]));
        lemma_without_underscores_of_digits(s.drop_last());
        assert(s.drop_last().push(s.last()) =~= s);
    }
}

/// Digits denote zero exactly where all of them are zero.
pub proof fn lemma_limbs_zero(limbs: Seq<u32>)
    ensures
        limbs_value(limbs) == 0 <==> forall|i: int| 0 <= i < limbs.len() ==> limbs[i] == 0,
    decreases limbs.len(),
{
    if limbs.len() > 0 {
        let rest = limbs.drop_first();
        lemma_limbs_zero(rest);
        if limbs_value(limbs) == 0 {
            assert(limbs[0] == 0 && limbs_value(rest) == 0) by (nonlinear_arith)
                requires
                    limbs[0] as nat + 0x1_0000_0000 * limbs_value(rest) == 0,
            ;
            assert forall|i: int| 0 <= i < limbs.len() implies limbs[i] == 0 by {
                if i > 0 {
                    assert(rest[i - 1] == limbs[i]);
                }
            }
        }
        if forall|i: int| 0 <= i < limbs.len() ==> limbs[i] == 0 {
            assert forall|i: int| 0 <= i < rest.len() implies rest[i] == 0 by {
                assert(rest[i] == limbs[i + 1]);
            }
            assert(limbs[0] == 0);
        }
    }
}

/// A number below 2^32 is its lowest digit.
pub proof fn lemma_limbs_small(limbs: Seq<u32>)
    requires
        limbs_value(limbs) < limb_base(),
    ensures
        limbs.len() == 0 ==> limbs_value(limbs) == 0,
        limbs.len() > 0 ==> limbs_value(limbs) == limbs[0],
{
    if limbs.len() > 0 {
        let rest = limbs_value(limbs.drop_first());
        assert(rest == 0) by (nonlinear_arith)
            requires
                limbs[0] as nat + 0x1_0000_0000 * rest < 0x1_0000_0000,
        ;
    }
}

/// What `num` says of text that is no decimal literal of a big number:
/// that it is empty, where nothing is left of it without one leading `+`,
/// and else that it has a character that is no digit.
pub open spec fn big_literal_message(s: Seq<char>) -> Seq<char> {
    if unsigned_body(s).len() == 0 {
        "cannot parse integer from empty string"@
    } else {
        "invalid digit found in string"@
    }
}

/// Reads a decimal literal with `BigUint::from_str`. The call accepts one
/// leading `+`, then a digit, then digits and underscores, and gives the
/// number that the digits denote; its digits are handed back in base 2^32.
/// For other text it gives an error, whose message is handed back as `num`
/// writes it.
#[verifier::external_body]
pub(crate) fn big_parse(text: &str) -> (r: Result<Vec<u32>, String>)
    ensures
        r is Ok <==> is_big_literal(text@),
        r matches Ok(limbs) ==> limbs_value(limbs@) == big_literal_value(text@),
        r matches Err(message) ==> message@ == big_literal_message(text@),
{
    match BigUint::from_str(text) {
        Ok(number) => Ok(number.to_u32_digits()),
        Err(error) => Err(error.to_string()),
    }
}

/// The product of a big number and a machine integer, by `BigUint`'s `*`.
#[verifier::external_body]
pub(crate) fn big_mul(limbs: &Vec<u32>, factor: u64) -> (r: Vec<u32>)
    ensures
        limbs_value(r@) == limbs_value(limbs@) * factor,
{
    (BigUint::from_slice(limbs) * factor).to_u32_digits()
}

/// The sum of a big number and a machine integer, by `BigUint`'s `+`.
#[verifier::external_body]
pub(crate) fn big_add(limbs: &Vec<u32>, addend: u32) -> (r: Vec<u32>)
    ensures
        limbs_value(r@) == limbs_value(limbs@) + addend,
{
    (BigUint::from_slice(limbs) + addend).to_u32_digits()
}

/// The quotient of a big number by a machine integer, rounded down, by
/// `BigUint`'s `/`, which panics on a zero divisor.
#[verifier::external_body]
pub(crate) fn big_div(limbs: &Vec<u32>, divisor: u32) -> (r: Vec<u32>)
    requires
        divisor != 0,
    ensures
        limbs_value(r@) == limbs_value(limbs@) / (divisor as nat),
{
    (BigUint::from_slice(limbs) / divisor).to_u32_digits()
}

/// The remainder of a big number by a machine integer, by `BigUint`'s `%`,
/// which panics on a zero divisor.
#[verifier::external_body]
pub(crate) fn big_rem(limbs: &Vec<u32>, divisor: u32) -> (r: Vec<u32>)
    requires
        divisor != 0,
    ensures
        limbs_value(r@) == limbs_value(limbs@) % (divisor as nat),
{
    (BigUint::from_slice(limbs) % divisor).to_u32_digits()
}

/// Whether one big number is less than another, by `BigUint`'s `<`.
#[verifier::external_body]
pub(crate) fn big_less(a: &Vec<u32>, b: &Vec<u32>) -> (r: bool)
    ensures
        r == (limbs_value(a@) < limbs_value(b@)),
{
    BigUint::from_slice(a) < BigUint::from_slice(b)
}

/// The decimal writing of a big number, as `BigUint` displays it: without
/// leading zeros, `"0"` for zero.
#[verifier::external_body]
pub(crate) fn big_decimal(limbs: &Vec<u32>) -> (r: String)
    ensures
        r@ == decimal_text(limbs_value(limbs@)),
{
    BigUint::from_slice(limbs).to_string()
}

/// Whether the digits denote zero.
pub fn limbs_is_zero(limbs: &Vec<u32>) -> (r: bool)
    ensures
        r == (limbs_value(limbs@) == 0),
{
    let mut i: usize = 0;
    while i < limbs.len()
        invariant
            i <= limbs.len(),
            forall|j: int| 0 <= j < i ==> limbs@[j] == 0,
        decreases limbs.len() - i,
    {
        if limbs[i] != 0 {
            proof {
                lemma_limbs_zero(limbs@);
            }
            return false;
        }
        i += 1;
    }
    proof {
        lemma_limbs_zero(limbs@);
    }
    true
}

/// The number that the digits denote, where it is below 2^32.
pub fn limbs_low(limbs: &Vec<u32>) -> (r: u32)
    requires
        limbs_value(limbs@) < limb_base(),
    ensures
        r == limbs_value(limbs@),
{
    proof {
        lemma_limbs_small(limbs@);
    }
    if limbs.len() == 0 {
        0
    } else {
        limbs[0]
    }
}

} // verus!
