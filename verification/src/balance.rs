//! Token amounts: natural numbers of any size.
//!
//! An amount is kept as its big-endian bytes without a leading zero byte, so
//! that equal amounts have equal bytes. Products, quotients and decimal text
//! come from `num_bigint`; everything else is computed here.

use crate::hex::{
    all_digits, as_chars, ascii_bytes, byte_digit, digit_char, digit_value, digits_start,
    has_prefix, hex_value, is_hex, lemma_hex_is_ascii, lemma_hex_value_step, unprefixed,
};
use num_bigint::BigUint;
use vstd::arithmetic::div_mod::lemma_div_denominator;
use vstd::prelude::*;

verus! {

/// The number that `s` spells in base 256, most significant byte first.
pub open spec fn be_value(s: Seq<u8>) -> nat
    decreases s.len(),
{
    if s.len() == 0 {
        0
    } else {
        256 * be_value(s.drop_last()) + s.last() as nat
    }
}

/// No leading zero byte; zero is the empty sequence.
pub open spec fn canonical(s: Seq<u8>) -> bool {
    s.len() == 0 || s[0] != 0
}

/// The decimal digits of `n`, without leading zeros; `"0"` for zero.
pub open spec fn decimal_text(n: nat) -> Seq<char>
    decreases n,
{
    if n < 10 {
        seq![digit_char(n)]
    } else {
        decimal_text(n / 10).push(digit_char(n % 10))
    }
}

/// The most hexadecimal digits that a 256-bit number takes.
pub const WORD_DIGITS: usize = 64;

/// Whether `s` is a number in hexadecimal of at most 256 bits: at most 64
/// digits, in either case, after the `0x` that it may start with. Without
/// any digit it spells zero.
pub open spec fn is_quantity(s: Seq<char>) -> bool {
    unprefixed(s).len() <= WORD_DIGITS && is_hex(unprefixed(s))
}

/// The number that a quantity spells.
pub open spec fn quantity_value(s: Seq<char>) -> nat {
    hex_value(unprefixed(s))
}

/// The digits of the 32-byte word number `index` of the return data `s`.
pub open spec fn word_digits(s: Seq<char>, index: nat) -> Seq<char> {
    s.subrange(2 + WORD_DIGITS * index as int, 2 + WORD_DIGITS * (index as int + 1))
}

/// Whether `s` is the return data of a call: `0x` and then digits only.
pub open spec fn is_return_data(s: Seq<char>) -> bool {
    has_prefix(s) && is_hex(unprefixed(s))
}

/// Whether `s` is return data that holds a word number `index`. Words are
/// counted from zero; the data may hold more words after it.
pub open spec fn has_word(s: Seq<char>, index: nat) -> bool {
    is_return_data(s) && s.len() >= 2 + WORD_DIGITS * (index + 1)
}

/// The number that the word number `index` of the return data `s` spells.
pub open spec fn word_value(s: Seq<char>, index: nat) -> nat {
    hex_value(word_digits(s, index))
}

/// 256 to the power `k`.
pub open spec fn pow256(k: nat) -> nat
    decreases k,
{
    if k == 0 {
        1
    } else {
        256 * pow256((k - 1) as nat)
    }
}

/// A power of 256 is positive.
pub proof fn lemma_pow256_positive(k: nat)
    ensures
        pow256(k) > 0,
    decreases k,
{
    if k > 0 {
        lemma_pow256_positive((k - 1) as nat);
    }
}

/// The eighth power of 256 is the number of values of a `u64`.
proof fn lemma_pow256_of_eight()
    ensures
        pow256(7) == 0x0100_0000_0000_0000,
        pow256(8) == 0x1_0000_0000_0000_0000,
{
    assert(pow256(0) == 1);
    assert(pow256(1) == 0x100);
    assert(pow256(2) == 0x1_0000);
    assert(pow256(3) == 0x100_0000);
    assert(pow256(4) == 0x1_0000_0000);
    assert(pow256(5) == 0x100_0000_0000);
    assert(pow256(6) == 0x1_0000_0000_0000);
    assert(pow256(7) == 0x100_0000_0000_0000);
}

/// Zero bytes in front do not change the value.
pub proof fn lemma_leading_zeros(s: Seq<u8>, k: int)
    requires
        0 <= k <= s.len(),
        forall|i: int| 0 <= i < k ==> s[i] == 0,
    ensures
        be_value(s) == be_value(s.subrange(k, s.len() as int)),
    decreases s.len(),
{
    if k == s.len() {
        lemma_zeros_are_zero(s);
        assert(s.subrange(k, s.len() as int) =~= Seq::<u8>::empty());
    } else {
        lemma_leading_zeros(s.drop_last(), k);
        assert(s.subrange(k, s.len() as int).drop_last() =~= s.drop_last().subrange(
            k,
            s.len() - 1,
        ));
    }
}

/// A sequence of zero bytes spells zero.
pub proof fn lemma_zeros_are_zero(s: Seq<u8>)
    requires
        forall|i: int| 0 <= i < s.len() ==> s[i] == 0,
    ensures
        be_value(s) == 0,
    decreases s.len(),
{
    if s.len() > 0 {
        lemma_zeros_are_zero(s.drop_last());
    }
}

/// A sequence that starts with a byte other than zero spells a positive number.
pub proof fn lemma_canonical_positive(s: Seq<u8>)
    requires
        s.len() > 0,
        s[0] != 0,
    ensures
        be_value(s) > 0,
    decreases s.len(),
{
    if s.len() > 1 {
        lemma_canonical_positive(s.drop_last());
    }
}

/// Two sequences without leading zero byte that spell the same number are
/// the same sequence.
pub proof fn lemma_canonical_unique(a: Seq<u8>, b: Seq<u8>)
    requires
        canonical(a),
        canonical(b),
        be_value(a) == be_value(b),
    ensures
        a == b,
    decreases a.len(),
{
    if a.len() == 0 || b.len() == 0 {
        if a.len() > 0 {
            lemma_canonical_positive(a);
        }
        if b.len() > 0 {
            lemma_canonical_positive(b);
        }
        assert(a =~= b);
    } else {
        lemma_canonical_unique(a.drop_last(), b.drop_last());
        assert(a =~= a.drop_last().push(a.last()));
        assert(b =~= b.drop_last().push(b.last()));
    }
}

/// One more byte at the end: the value times 256, plus the byte.
pub proof fn lemma_be_value_push(s: Seq<u8>, b: u8)
    ensures
        be_value(s.push(b)) == 256 * be_value(s) + b as nat,
{
    assert(s.push(b).drop_last() =~= s);
}

/// The bytes of the number that the digits `src[from..to]` spell; `None` when
/// one of the characters is no digit.
fn parse_digits(src: &[u8], from: usize, to: usize) -> (r: Option<Vec<u8>>)
    requires
        from <= to <= src.len(),
    ensures
        r is Some <==> is_hex(as_chars(src@).subrange(from as int, to as int)),
        r matches Some(v) ==> be_value(v@) == hex_value(
            as_chars(src@).subrange(from as int, to as int),
        ),
{
    let ghost digits = as_chars(src@).subrange(from as int, to as int);
    let mut out: Vec<u8> = Vec::new();
    let mut k: usize = from;
    assert(digits.subrange(0, 0) =~= Seq::<char>::empty());
    if (to - from) % 2 == 1 {
        assert(digits[0] == src@[from as int] as char);
        match byte_digit(src[k]) {
            Some(d) => {
                proof {
                    lemma_be_value_push(out@, d);
                    lemma_hex_value_step(digits, 0);
                }
                out.push(d);
            },
            None => {
                return None;
            },
        }
        k += 1;
    }
    while k < to
        invariant
            from <= k <= to <= src.len(),
            (to - k) % 2 == 0,
            digits == as_chars(src@).subrange(from as int, to as int),
            forall|i: int| 0 <= i < k - from ==> (#[trigger] digit_value(digits[i])) is Some,
            be_value(out@) == hex_value(digits.subrange(0, k - from)),
        decreases to - k,
    {
        assert(digits[k - from] == src@[k as int] as char);
        assert(digits[k - from + 1] == src@[k + 1] as char);
        match (byte_digit(src[k]), byte_digit(src[k + 1])) {
            (Some(h), Some(l)) => {
                proof {
                    lemma_be_value_push(out@, (h * 16 + l) as u8);
                    lemma_hex_value_step(digits, k - from);
                    lemma_hex_value_step(digits, k - from + 1);
                }
                out.push(h * 16 + l);
            },
            _ => {
                return None;
            },
        }
        k += 2;
    }
    assert(digits.subrange(0, to - from) =~= digits);
    Some(out)
}

/// `BigUint::from_bytes_be` on both arguments, `*` on the two numbers, and
/// `BigUint::to_bytes_be` on the result: the bytes spell the product of the
/// numbers that `a` and `b` spell.
#[verifier::external_body]
fn product_bytes(a: &[u8], b: &[u8]) -> (r: Vec<u8>)
    ensures
        be_value(r@) == be_value(a@) * be_value(b@),
{
    (BigUint::from_bytes_be(a) * BigUint::from_bytes_be(b)).to_bytes_be()
}

/// `BigUint::from_bytes_be` on both arguments, `/` on the two numbers, and
/// `BigUint::to_bytes_be` on the result: the bytes spell the quotient, rounded
/// down. `/` panics on a zero divisor, which `requires` leaves out.
#[verifier::external_body]
fn quotient_bytes(a: &[u8], b: &[u8]) -> (r: Vec<u8>)
    requires
        be_value(b@) > 0,
    ensures
        be_value(r@) == be_value(a@) / be_value(b@),
{
    (BigUint::from_bytes_be(a) / BigUint::from_bytes_be(b)).to_bytes_be()
}

/// `BigUint::from_bytes_be`, then `to_string` on the number: its decimal
/// digits without leading zeros, `"0"` for zero.
#[verifier::external_body]
pub(crate) fn decimal_string(a: &[u8]) -> (r: String)
    ensures
        r@ == decimal_text(be_value(a@)),
{
    BigUint::from_bytes_be(a).to_string()
}

/// A token amount.
#[derive(Debug, PartialEq, Eq)]
pub struct Balance {
    bytes: Vec<u8>,
}

impl View for Balance {
    type V = nat;

    closed spec fn view(&self) -> nat {
        be_value(self.bytes@)
    }
}

/// The numbers of some amounts.
pub open spec fn amounts_of(balances: Seq<Balance>) -> Seq<nat> {
    Seq::new(balances.len(), |i: int| balances[i]@)
}

impl Clone for Balance {
    fn clone(&self) -> (r: Self)
        ensures
            r@ == self@,
    {
        proof {
            use_type_invariant(self);
        }
        let bytes = self.bytes.clone();
        assert(bytes@ =~= self.bytes@);
        Balance { bytes }
    }
}

impl Balance {
    #[verifier::type_invariant]
    spec fn well_formed(self) -> bool {
        canonical(self.bytes@)
    }

    /// The amount that `bytes` spell, most significant byte first.
    pub fn from_be_bytes(bytes: &[u8]) -> (r: Balance)
        ensures
            r@ == be_value(bytes@),
    {
        let mut start: usize = 0;
        while start < bytes.len() && bytes[start] == 0
            invariant
                start <= bytes.len(),
                forall|i: int| 0 <= i < start ==> bytes@[i] == 0,
            decreases bytes.len() - start,
        {
            start += 1;
        }
        let mut kept: Vec<u8> = Vec::new();
        let mut i: usize = start;
        while i < bytes.len()
            invariant
                start <= i <= bytes.len(),
                kept@ == bytes@.subrange(start as int, i as int),
            decreases bytes.len() - i,
        {
            kept.push(bytes[i]);
            i += 1;
        }
        proof {
            lemma_leading_zeros(bytes@, start as int);
        }
        Balance { bytes: kept }
    }

    /// The big-endian bytes of the amount, without a leading zero byte.
    pub fn to_be_bytes(&self) -> (r: Vec<u8>)
        ensures
            be_value(r@) == self@,
            canonical(r@),
    {
        proof {
            use_type_invariant(self);
        }
        let bytes = self.bytes.clone();
        assert(bytes@ =~= self.bytes@);
        bytes
    }

    /// The amount zero.
    pub fn zero() -> (r: Balance)
        ensures
            r@ == 0,
    {
        Balance { bytes: Vec::new() }
    }

    /// The amount `n`.
    pub fn from_u64(n: u64) -> (r: Balance)
        ensures
            r@ == n,
    {
        let mut bytes: Vec<u8> = Vec::new();
        let mut unit: u64 = 0x0100_0000_0000_0000;
        let mut left: u8 = 8;
        proof {
            lemma_pow256_of_eight();
        }
        while left > 0
            invariant
                0 <= left <= 8,
                left > 0 ==> unit as nat == pow256((left - 1) as nat),
                be_value(bytes@) == n as nat / pow256(left as nat),
            decreases left,
        {
            proof {
                lemma_pow256_positive((left - 1) as nat);
                lemma_div_denominator(n as int, unit as int, 256);
                assert(pow256(left as nat) == unit * 256);
            }
            let byte: u8 = ((n / unit) % 256) as u8;
            assert(bytes@.push(byte).drop_last() =~= bytes@);
            bytes.push(byte);
            unit = unit / 256;
            left = left - 1;
        }
        assert(be_value(bytes@) == n) by {
            assert(pow256(0) == 1);
            assert(be_value(bytes@) == n as nat / pow256(0));
        }
        Balance::from_be_bytes(bytes.as_slice())
    }

    /// Whether the amount is zero.
    pub fn is_zero(&self) -> (r: bool)
        ensures
            r == (self@ == 0),
    {
        proof {
            use_type_invariant(self);
            if self.bytes@.len() > 0 {
                lemma_canonical_positive(self.bytes@);
            }
        }
        self.bytes.len() == 0
    }

    /// The product of two amounts.
    pub fn product(&self, rhs: &Balance) -> (r: Balance)
        ensures
            r@ == self@ * rhs@,
    {
        let bytes = product_bytes(self.bytes.as_slice(), rhs.bytes.as_slice());
        Balance::from_be_bytes(bytes.as_slice())
    }

    /// The quotient of two amounts, rounded down; `None` when the divisor is
    /// zero.
    pub fn quotient(&self, rhs: &Balance) -> (r: Option<Balance>)
        ensures
            r is None <==> rhs@ == 0,
            r matches Some(q) ==> q@ == self@ / rhs@,
    {
        if rhs.is_zero() {
            None
        } else {
            Some(self.quotient_by_positive(rhs))
        }
    }

    /// The amount that a hexadecimal quantity spells; `None` when the text is
    /// no quantity.
    pub fn from_hex(text: &str) -> (r: Option<Balance>)
        ensures
            r is Some <==> is_quantity(text@),
            r matches Some(b) ==> b@ == quantity_value(text@),
    {
        proof {
            if is_quantity(text@) {
                lemma_hex_is_ascii(text@);
            }
        }
        match ascii_bytes(text) {
            None => None,
            Some(src) => {
                let from = digits_start(src);
                if src.len() - from > WORD_DIGITS {
                    return None;
                }
                match parse_digits(src, from, src.len()) {
                    Some(bytes) => Some(Balance::from_be_bytes(bytes.as_slice())),
                    None => None,
                }
            },
        }
    }

    /// The amount in the 32-byte word number `index` of the return data of a
    /// call; `None` when the text is no return data or holds no such word.
    pub fn from_word(text: &str, index: usize) -> (r: Option<Balance>)
        ensures
            r is Some <==> has_word(text@, index as nat),
            r matches Some(b) ==> b@ == word_value(text@, index as nat),
    {
        proof {
            if is_return_data(text@) {
                lemma_hex_is_ascii(text@);
            }
        }
        match ascii_bytes(text) {
            None => None,
            Some(src) => {
                if src.len() < 2 + WORD_DIGITS || digits_start(src) != 2 {
                    return None;
                }
                if index > (src.len() - 2 - WORD_DIGITS) / WORD_DIGITS || !all_digits(
                    src,
                    2,
                    src.len(),
                ) {
                    return None;
                }
                let from: usize = 2 + WORD_DIGITS * index;
                proof {
                    let word = word_digits(text@, index as nat);
                    assert(as_chars(src@).subrange(from as int, from + WORD_DIGITS) =~= word);
                    assert forall|i: int| 0 <= i < word.len() implies (#[trigger] digit_value(
                        word[i],
                    )) is Some by {
                        assert(word[i] == unprefixed(text@)[from - 2 + i]);
                    }
                }
                match parse_digits(src, from, from + WORD_DIGITS) {
                    Some(bytes) => Some(Balance::from_be_bytes(bytes.as_slice())),
                    None => None,
                }
            },
        }
    }

    /// Whether two amounts are the same number.
    pub fn same(&self, other: &Balance) -> (r: bool)
        ensures
            r == (self@ == other@),
    {
        proof {
            use_type_invariant(self);
            use_type_invariant(other);
            if self@ == other@ {
                lemma_canonical_unique(self.bytes@, other.bytes@);
            }
        }
        if self.bytes.len() != other.bytes.len() {
            return false;
        }
        let mut i: usize = 0;
        while i < self.bytes.len()
            invariant
                i <= self.bytes@.len(),
                self.bytes@.len() == other.bytes@.len(),
                self@ == other@ ==> self.bytes@ == other.bytes@,
                forall|k: int| 0 <= k < i ==> self.bytes@[k] == other.bytes@[k],
            decreases self.bytes@.len() - i,
        {
            if self.bytes[i] != other.bytes[i] {
                return false;
            }
            i += 1;
        }
        assert(self.bytes@ =~= other.bytes@);
        true
    }

    /// The quotient of two amounts, rounded down, for a divisor that is not
    /// zero.
    pub(crate) fn quotient_by_positive(&self, rhs: &Balance) -> (r: Balance)
        requires
            rhs@ > 0,
        ensures
            r@ == self@ / rhs@,
    {
        let bytes = quotient_bytes(self.bytes.as_slice(), rhs.bytes.as_slice());
        Balance::from_be_bytes(bytes.as_slice())
    }

    /// The amount in decimal digits.
    pub fn to_decimal(&self) -> (r: String)
        ensures
            r@ == decimal_text(self@),
    {
        decimal_string(self.bytes.as_slice())
    }
}

} // verus!
