//! Claim amounts of a distribution file: from hexadecimal to decimal.

use crate::balance::{be_value, decimal_string, decimal_text};
use num_bigint::{BigInt, Sign};
use vstd::prelude::*;
use vstd::slice::slice_subrange;
use vstd::string::*;
use vstd::utf8::{encode_utf8, encode_utf8_valid_utf8, is_char_boundary};

verus! {

/// One claim of a distribution.
#[derive(Debug, PartialEq, Eq)]
pub struct ProofClaim {
    pub index: u32,
    pub amount: String,
    pub proof: Vec<String>,
}

/// The number that `BigInt::parse_bytes` reads in `text` in the given
/// radix; `None` where it reads none.
pub uninterp spec fn parsed_radix(text: Seq<u8>, radix: u32) -> Option<int>;

/// The number with the given sign and size.
pub open spec fn signed(negative: bool, magnitude: nat) -> int {
    if negative {
        -(magnitude as int)
    } else {
        magnitude as int
    }
}

/// The decimal digits of `n`, after a minus sign when it is negative.
pub open spec fn signed_decimal_text(n: int) -> Seq<char> {
    if n < 0 {
        seq!['-'] + decimal_text((-n) as nat)
    } else {
        decimal_text(n as nat)
    }
}

/// The amount `text` in decimal: the number that the text holds in
/// hexadecimal behind its first two bytes, and zero when there is none.
pub open spec fn base10_of(text: Seq<u8>) -> Seq<char> {
    match parsed_radix(text.subrange(2, text.len() as int), 16) {
        Some(n) => signed_decimal_text(n),
        None => signed_decimal_text(0),
    }
}

/// `BigInt::parse_bytes`, and `BigInt::to_bytes_be` on what it returns:
/// whether the number is negative, and the big-endian bytes of its size.
/// Nothing is said here of which texts are numbers. `parse_bytes` panics on
/// a radix outside 2 to 36, which `requires` leaves out.
#[verifier::external_body]
fn parse_radix(text: &[u8], radix: u32) -> (r: Option<(bool, Vec<u8>)>)
    requires
        2 <= radix <= 36,
    ensures
        r is Some <==> parsed_radix(text@, radix) is Some,
        r matches Some((negative, magnitude)) ==> parsed_radix(text@, radix) == Some(
            signed(negative, be_value(magnitude@)),
        ),
{
    match BigInt::parse_bytes(text, radix) {
        Some(n) => match n.to_bytes_be() {
            (Sign::Minus, magnitude) => Some((true, magnitude)),
            (Sign::NoSign, magnitude) => Some((false, magnitude)),
            (Sign::Plus, magnitude) => Some((false, magnitude)),
        },
        None => None,
    }
}

/// The decimal text of a number that was read.
pub fn decimal_of_parsed(parsed: Option<(bool, Vec<u8>)>) -> (r: String)
    ensures
        r@ == match parsed {
            Some((negative, magnitude)) => signed_decimal_text(
                signed(negative, be_value(magnitude@)),
            ),
            None => signed_decimal_text(0),
        },
{
    match parsed {
        Some((negative, magnitude)) => {
            let digits = decimal_string(magnitude.as_slice());
            let is_zero = all_zero(&magnitude);
            if negative && !is_zero {
                let mut r = String::new();
                proof {
                    reveal_strlit("-");
                }
                r.append("-");
                r.append(digits.as_str());
                assert(r@ =~= seq!['-'] + digits@);
                r
            } else {
                digits
            }
        },
        None => {
            let zero: Vec<u8> = Vec::new();
            decimal_string(zero.as_slice())
        },
    }
}

/// Whether the bytes spell zero.
fn all_zero(bytes: &Vec<u8>) -> (r: bool)
    ensures
        r == (be_value(bytes@) == 0),
{
    let mut i: usize = 0;
    while i < bytes.len()
        invariant
            i <= bytes@.len(),
            forall|k: int| 0 <= k < i ==> bytes@[k] == 0,
        decreases bytes@.len() - i,
    {
        if bytes[i] != 0 {
            proof {
                crate::balance::lemma_leading_zeros(bytes@, i as int);
                crate::balance::lemma_canonical_positive(
                    bytes@.subrange(i as int, bytes@.len() as int),
                );
            }
            return false;
        }
        i += 1;
    }
    proof {
        crate::balance::lemma_zeros_are_zero(bytes@);
    }
    true
}

/// Whether an amount can be read: its first two bytes are whole characters.
pub open spec fn readable(amount: Seq<char>) -> bool {
    is_char_boundary(encode_utf8(amount), 2)
}

/// A claim's amount in decimal. The amount is read behind its first two
/// bytes, which stand for `0x`; an amount that holds no number there counts
/// as zero.
pub fn hex_amount_to_base10(amount: &str) -> (r: String)
    requires
        readable(amount@),
    ensures
        r@ == base10_of(encode_utf8(amount@)),
{
    let bytes = amount.as_bytes();
    proof {
        encode_utf8_valid_utf8(amount@);
    }
    let digits = slice_subrange(bytes, 2, bytes.len());
    decimal_of_parsed(parse_radix(digits, 16))
}

/// The claims with every amount in decimal; nothing else of a claim
/// changes.
pub fn convert_hex_to_base10(claims: &Vec<ProofClaim>) -> (r: Vec<ProofClaim>)
    requires
        forall|i: int| 0 <= i < claims@.len() ==> readable((#[trigger] claims@[i]).amount@),
    ensures
        r@.len() == claims@.len(),
        forall|i: int|
            0 <= i < r@.len() ==> {
                &&& (#[trigger] r@[i]).index == claims@[i].index
                &&& r@[i].proof@ == claims@[i].proof@
                &&& r@[i].amount@ == base10_of(encode_utf8(claims@[i].amount@))
            },
{
    let mut out: Vec<ProofClaim> = Vec::new();
    let mut i: usize = 0;
    while i < claims.len()
        invariant
            i <= claims@.len(),
            out@.len() == i,
            forall|k: int| 0 <= k < claims@.len() ==> readable((#[trigger] claims@[k]).amount@),
            forall|k: int|
                0 <= k < i ==> {
                    &&& (#[trigger] out@[k]).index == claims@[k].index
                    &&& out@[k].proof@ == claims@[k].proof@
                    &&& out@[k].amount@ == base10_of(encode_utf8(claims@[k].amount@))
                },
        decreases claims@.len() - i,
    {
        let claim = &claims[i];
        let proof_nodes = claim.proof.clone();
        assert(proof_nodes@ =~= claim.proof@);
        out.push(
            ProofClaim {
                index: claim.index,
                amount: hex_amount_to_base10(claim.amount.as_str()),
                proof: proof_nodes,
            },
        );
        i += 1;
    }
    out
}

} // verus!
