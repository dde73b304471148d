//! Account addresses: 20 bytes, written as 40 hexadecimal digits.

use crate::hex::{
    all_digits, as_chars, ascii_bytes, decode_bytes, digit_value, digits_start, has_prefix,
    hex_bytes, hex_text, is_hex, lemma_case_does_not_matter, lemma_hex_is_ascii,
    lemma_hex_text_round_trip, prefix, prefixed_hex, same_but_for_case, unprefixed,
};
use vstd::prelude::*;

verus! {

/// The number of bytes of an address.
pub const ADDRESS_BYTES: usize = 20;

/// Whether `s` is an address in text: 40 digits, in either case, after the
/// `0x` that it may start with.
pub open spec fn is_address_text(s: Seq<char>) -> bool {
    unprefixed(s).len() == 2 * ADDRESS_BYTES && is_hex(unprefixed(s))
}

/// The bytes of the address that `s` spells.
pub open spec fn address_bytes(s: Seq<char>) -> Seq<u8> {
    hex_bytes(unprefixed(s))
}

/// The text of an address: `0x` and 40 lower-case digits.
pub open spec fn address_text(address: Seq<u8>) -> Seq<char> {
    prefix() + hex_text(address)
}

/// Whether `s` is a 32-byte topic word in text: `0x` and 64 digits.
pub open spec fn is_topic_text(s: Seq<char>) -> bool {
    has_prefix(s) && s.len() == 66 && is_hex(unprefixed(s))
}

/// The bytes of the address in the topic word `s`: the last 20 of its 32
/// bytes.
pub open spec fn topic_address_bytes(s: Seq<char>) -> Seq<u8> {
    hex_bytes(unprefixed(s)).subrange(12, 32)
}

/// An address as a 32-byte word: 12 zero bytes, then the address.
pub open spec fn address_word(address: Seq<u8>) -> Seq<u8> {
    Seq::new(12, |i: int| 0u8) + address
}

/// An account on the chain.
#[derive(Clone, Copy, Debug, PartialEq, Eq, PartialOrd, Ord, Hash)]
pub struct Address {
    pub bytes: [u8; 20],
}

impl View for Address {
    type V = Seq<u8>;

    open spec fn view(&self) -> Seq<u8> {
        self.bytes@
    }
}

/// Two addresses with the same bytes are the same address.
pub proof fn lemma_address_by_bytes(a: Address, b: Address)
    requires
        a@ == b@,
    ensures
        a == b,
{
    assert(a.bytes@ =~= b.bytes@);
    assert(a.bytes == b.bytes);
}

/// The text of an address spells the address.
pub proof fn lemma_address_text_round_trip(a: Address)
    ensures
        is_address_text(address_text(a@)),
        address_bytes(address_text(a@)) == a@,
{
    let text = address_text(a@);
    lemma_hex_text_round_trip(a@);
    assert(unprefixed(text) =~= hex_text(a@));
}

/// The word of an address, written as a topic, is read as the address.
pub proof fn lemma_topic_round_trip(a: Address)
    ensures
        is_topic_text(prefix() + hex_text(address_word(a@))),
        topic_address_bytes(prefix() + hex_text(address_word(a@))) == a@,
{
    let word = address_word(a@);
    let text = prefix() + hex_text(word);
    lemma_hex_text_round_trip(word);
    assert(unprefixed(text) =~= hex_text(word));
    assert(word.subrange(12, 32) =~= a@);
}

/// The case of the letters in its text does not matter to an address.
pub proof fn lemma_address_text_case(s: Seq<char>, t: Seq<char>)
    requires
        same_but_for_case(unprefixed(s), unprefixed(t)),
    ensures
        is_address_text(s) == is_address_text(t),
        address_bytes(s) == address_bytes(t),
{
    lemma_case_does_not_matter(unprefixed(s), unprefixed(t));
}

impl Address {
    /// The address with the given bytes.
    pub fn from_bytes(bytes: [u8; 20]) -> (r: Address)
        ensures
            r@ == bytes@,
    {
        Address { bytes }
    }

    /// The address made of the 20 bytes of `bytes`.
    fn from_vec(bytes: &Vec<u8>) -> (r: Address)
        requires
            bytes@.len() == ADDRESS_BYTES,
        ensures
            r@ == bytes@,
    {
        let mut array: [u8; 20] = [0u8; 20];
        let mut k: usize = 0;
        while k < ADDRESS_BYTES
            invariant
                k <= ADDRESS_BYTES,
                bytes@.len() == ADDRESS_BYTES,
                forall|i: int| 0 <= i < k ==> array@[i] == bytes@[i],
            decreases ADDRESS_BYTES - k,
        {
            array[k] = bytes[k];
            k += 1;
        }
        assert(array@ =~= bytes@);
        Address { bytes: array }
    }

    /// The address that `text` spells; `None` when it is no address.
    pub fn from_hex(text: &str) -> (r: Option<Address>)
        ensures
            r is Some <==> is_address_text(text@),
            r matches Some(a) ==> a@ == address_bytes(text@),
    {
        proof {
            if is_address_text(text@) {
                lemma_hex_is_ascii(text@);
            }
        }
        match ascii_bytes(text) {
            None => None,
            Some(src) => {
                let from = digits_start(src);
                if src.len() - from != 2 * ADDRESS_BYTES {
                    return None;
                }
                match decode_bytes(src, from, ADDRESS_BYTES) {
                    Some(bytes) => Some(Address::from_vec(&bytes)),
                    None => None,
                }
            },
        }
    }

    /// The address in a topic word: the last 20 of its 32 bytes. `None` when
    /// `text` is no topic word.
    pub fn from_topic(text: &str) -> (r: Option<Address>)
        ensures
            r is Some <==> is_topic_text(text@),
            r matches Some(a) ==> a@ == topic_address_bytes(text@),
    {
        proof {
            if is_topic_text(text@) {
                lemma_hex_is_ascii(text@);
            }
        }
        match ascii_bytes(text) {
            None => None,
            Some(src) => {
                if src.len() != 66 || digits_start(src) != 2 || !all_digits(src, 2, 66) {
                    return None;
                }
                proof {
                    let digits = unprefixed(text@);
                    let tail = text@.subrange(26, 66);
                    assert(as_chars(src@).subrange(26, 66) =~= tail);
                    assert forall|i: int| 0 <= i < tail.len() implies (#[trigger] digit_value(
                        tail[i],
                    )) is Some by {
                        assert(tail[i] == digits[i + 24]);
                    }
                    assert forall|i: int| 0 <= i < 20 implies hex_bytes(tail)[i] == hex_bytes(
                        digits,
                    )[i + 12] by {
                        assert(tail[2 * i] == digits[2 * (i + 12)]);
                        assert(tail[2 * i + 1] == digits[2 * (i + 12) + 1]);
                    }
                    assert(hex_bytes(tail) =~= topic_address_bytes(text@));
                }
                match decode_bytes(src, 26, ADDRESS_BYTES) {
                    Some(bytes) => Some(Address::from_vec(&bytes)),
                    None => None,
                }
            },
        }
    }

    /// The address in text: `0x` and 40 lower-case digits.
    pub fn to_hex(&self) -> (r: String)
        ensures
            r@ == address_text(self@),
    {
        prefixed_hex(self.bytes.as_slice())
    }

    /// Whether two addresses have the same bytes.
    pub fn same(&self, other: &Address) -> (r: bool)
        ensures
            r == (self@ == other@),
            r == (*self == *other),
    {
        let mut k: usize = 0;
        while k < ADDRESS_BYTES
            invariant
                k <= ADDRESS_BYTES,
                forall|i: int| 0 <= i < k ==> self.bytes@[i] == other.bytes@[i],
            decreases ADDRESS_BYTES - k,
        {
            if self.bytes[k] != other.bytes[k] {
                return false;
            }
            k += 1;
        }
        proof {
            assert(self@ =~= other@);
            lemma_address_by_bytes(*self, *other);
        }
        true
    }
}

} // verus!
