//! Hexadecimal text as it travels on the JSON-RPC wire: digits in either
//! case on the way in, lower-case digits on the way out.

use vstd::prelude::*;
use vstd::string::*;
use vstd::utf8::is_ascii_chars;

verus! {

/// The value of one hexadecimal digit, in either case; `None` for every
/// other character.
pub open spec fn digit_value(c: char) -> Option<nat> {
    if '0' <= c <= '9' {
        Some((c as int - '0' as int) as nat)
    } else if 'a' <= c <= 'f' {
        Some((c as int - 'a' as int + 10) as nat)
    } else if 'A' <= c <= 'F' {
        Some((c as int - 'A' as int + 10) as nat)
    } else {
        None
    }
}

/// The value of a digit, and 0 for a character that is none.
pub open spec fn nibble(c: char) -> nat {
    match digit_value(c) {
        Some(d) => d,
        None => 0,
    }
}

/// Every character of `s` is a hexadecimal digit.
pub open spec fn is_hex(s: Seq<char>) -> bool {
    forall|i: int| 0 <= i < s.len() ==> (#[trigger] digit_value(s[i])) is Some
}

/// The number that the digits of `s` spell, most significant digit first.
pub open spec fn hex_value(s: Seq<char>) -> nat
    decreases s.len(),
{
    if s.len() == 0 {
        0
    } else {
        16 * hex_value(s.drop_last()) + nibble(s.last())
    }
}

/// The bytes that the digits of `s` spell, two digits to a byte.
pub open spec fn hex_bytes(s: Seq<char>) -> Seq<u8> {
    Seq::new(s.len() / 2, |i: int| (16 * nibble(s[2 * i]) + nibble(s[2 * i + 1])) as u8)
}

/// The lower-case digit for a value below 16.
pub open spec fn digit_char(d: nat) -> char {
    if d < 10 {
        ('0' as nat + d) as char
    } else {
        ('a' as nat + d - 10) as char
    }
}

/// Two lower-case digits for each byte of `b`.
pub open spec fn hex_text(b: Seq<u8>) -> Seq<char> {
    Seq::new(
        2 * b.len(),
        |i: int|
            digit_char(
                if i % 2 == 0 {
                    b[i / 2] as nat / 16
                } else {
                    b[i / 2] as nat % 16
                },
            ),
    )
}

/// The lower-case digits of `n` without leading zeros; `"0"` for zero.
pub open spec fn quantity_digits(n: nat) -> Seq<char>
    decreases n,
{
    if n < 16 {
        seq![digit_char(n)]
    } else {
        quantity_digits(n / 16).push(digit_char(n % 16))
    }
}

/// The two characters that mark hexadecimal text.
pub open spec fn prefix() -> Seq<char> {
    seq!['0', 'x']
}

/// Whether `s` starts with `0x`.
pub open spec fn has_prefix(s: Seq<char>) -> bool {
    s.len() >= 2 && s[0] == '0' && s[1] == 'x'
}

/// `s` without the `0x` it may start with.
pub open spec fn unprefixed(s: Seq<char>) -> Seq<char> {
    if has_prefix(s) {
        s.subrange(2, s.len() as int)
    } else {
        s
    }
}

/// The characters whose codes are the bytes `b`.
pub open spec fn as_chars(b: Seq<u8>) -> Seq<char> {
    Seq::new(b.len(), |i: int| b[i] as char)
}

/// The letter `c` in lower case; any other character as it is.
pub open spec fn lower(c: char) -> char {
    if 'A' <= c <= 'Z' {
        (c as int + 32) as char
    } else {
        c
    }
}

/// Whether two texts differ at most in the case of their letters.
pub open spec fn same_but_for_case(s: Seq<char>, t: Seq<char>) -> bool {
    &&& s.len() == t.len()
    &&& forall|i: int| 0 <= i < s.len() ==> lower(#[trigger] s[i]) == lower(t[i])
}

/// A lower-case digit spells its value.
pub proof fn lemma_digit_char(d: nat)
    requires
        d < 16,
    ensures
        digit_value(digit_char(d)) == Some(d),
{
}

/// Digits are ASCII, so a text of digits behind `0x` or behind nothing is
/// ASCII.
pub proof fn lemma_hex_is_ascii(s: Seq<char>)
    requires
        is_hex(unprefixed(s)),
    ensures
        is_ascii_chars(s),
{
    assert forall|i: int| 0 <= i < s.len() implies '\0' <= #[trigger] s[i] <= '\u{7f}' by {
        if !has_prefix(s) {
            assert(digit_value(unprefixed(s)[i]) is Some);
        } else if i >= 2 {
            assert(digit_value(unprefixed(s)[i - 2]) is Some);
        }
    }
}

/// One more digit at the end: the value times 16, plus the digit.
pub proof fn lemma_hex_value_step(s: Seq<char>, k: int)
    requires
        0 <= k < s.len(),
    ensures
        hex_value(s.subrange(0, k + 1)) == 16 * hex_value(s.subrange(0, k)) + nibble(s[k]),
{
    assert(s.subrange(0, k + 1).drop_last() =~= s.subrange(0, k));
}

/// Decoding the text of some bytes gives the bytes back.
pub proof fn lemma_hex_text_round_trip(b: Seq<u8>)
    ensures
        is_hex(hex_text(b)),
        hex_bytes(hex_text(b)) == b,
{
    let t = hex_text(b);
    assert forall|i: int| 0 <= i < t.len() implies (#[trigger] digit_value(t[i])) is Some by {
        lemma_digit_char(b[i / 2] as nat / 16);
        lemma_digit_char(b[i / 2] as nat % 16);
    }
    assert forall|i: int| 0 <= i < b.len() implies hex_bytes(t)[i] == b[i] by {
        lemma_digit_char(b[i] as nat / 16);
        lemma_digit_char(b[i] as nat % 16);
        assert(t[2 * i] == digit_char(b[i] as nat / 16));
        assert(t[2 * i + 1] == digit_char(b[i] as nat % 16));
    }
    assert(hex_bytes(t) =~= b);
}

/// Reading the digits of a number gives the number back.
pub proof fn lemma_quantity_round_trip(n: nat)
    ensures
        is_hex(quantity_digits(n)),
        hex_value(quantity_digits(n)) == n,
    decreases n,
{
    if n < 16 {
        lemma_digit_char(n);
        let s = quantity_digits(n);
        assert(s.drop_last() =~= Seq::<char>::empty());
        assert(hex_value(s.drop_last()) == 0);
    } else {
        lemma_quantity_round_trip(n / 16);
        lemma_digit_char(n % 16);
        let front = quantity_digits(n / 16);
        let s = quantity_digits(n);
        assert(s.drop_last() =~= front);
        assert forall|i: int| 0 <= i < s.len() implies (#[trigger] digit_value(s[i])) is Some by {
            if i < front.len() {
                assert(s[i] == front[i]);
            }
        }
    }
}

/// 16 to the power `k`.
pub open spec fn pow16(k: nat) -> nat
    decreases k,
{
    if k == 0 {
        1
    } else {
        16 * pow16((k - 1) as nat)
    }
}

/// A number below 16 to the power `k` has at most `k` digits.
pub proof fn lemma_quantity_len(n: nat, k: nat)
    requires
        k >= 1,
        n < pow16(k),
    ensures
        1 <= quantity_digits(n).len() <= k,
    decreases n,
{
    if n >= 16 {
        assert(pow16(1) == 16) by {
            assert(pow16(0) == 1);
        }
        assert(k >= 2);
        lemma_quantity_len(n / 16, (k - 1) as nat);
    }
}

/// The case of the letters does not matter to what digits spell.
pub proof fn lemma_case_does_not_matter(s: Seq<char>, t: Seq<char>)
    requires
        same_but_for_case(s, t),
    ensures
        is_hex(s) == is_hex(t),
        hex_value(s) == hex_value(t),
        hex_bytes(s) == hex_bytes(t),
    decreases s.len(),
{
    assert forall|i: int| 0 <= i < s.len() implies digit_value(#[trigger] s[i]) == digit_value(
        t[i],
    ) by {
        assert(lower(s[i]) == lower(t[i]));
    }
    if is_hex(s) {
        assert forall|i: int| 0 <= i < t.len() implies (#[trigger] digit_value(t[i])) is Some by {
            assert(digit_value(s[i]) is Some);
        }
    }
    if is_hex(t) {
        assert forall|i: int| 0 <= i < s.len() implies (#[trigger] digit_value(s[i])) is Some by {
            assert(digit_value(t[i]) is Some);
        }
    }
    assert(hex_bytes(s) =~= hex_bytes(t)) by {
        assert forall|i: int| 0 <= i < s.len() / 2 implies hex_bytes(s)[i] == hex_bytes(t)[i] by {
            assert(digit_value(s[2 * i]) == digit_value(t[2 * i]));
            assert(digit_value(s[2 * i + 1]) == digit_value(t[2 * i + 1]));
        }
    }
    if s.len() > 0 {
        assert forall|i: int| 0 <= i < s.len() - 1 implies lower(#[trigger] s.drop_last()[i])
            == lower(t.drop_last()[i]) by {
            assert(lower(s[i]) == lower(t[i]));
        }
        lemma_case_does_not_matter(s.drop_last(), t.drop_last());
        assert(digit_value(s[s.len() - 1]) == digit_value(t[s.len() - 1]));
    }
}

/// The bytes of an ASCII text, one for each character; `None` when some
/// character lies beyond ASCII.
pub(crate) fn ascii_bytes(text: &str) -> (r: Option<&[u8]>)
    ensures
        r is Some <==> is_ascii_chars(text@),
        r matches Some(b) ==> as_chars(b@) == text@,
{
    if text.is_ascii() {
        let bytes = text.as_bytes();
        proof {
            is_ascii_spec_bytes(text);
            assert forall|i: int| 0 <= i < text@.len() implies as_chars(bytes@)[i]
                == text@[i] by {
                assert('\0' <= text@[i] <= '\u{7f}');
            }
            assert(as_chars(bytes@) =~= text@);
        }
        Some(bytes)
    } else {
        None
    }
}

/// Where the digits start in a text that may start with `0x`: at 2 behind
/// the prefix, at 0 without it.
pub(crate) fn digits_start(src: &[u8]) -> (r: usize)
    ensures
        r == if has_prefix(as_chars(src@)) {
            2usize
        } else {
            0usize
        },
        r <= src@.len(),
        as_chars(src@).subrange(r as int, src@.len() as int) == unprefixed(as_chars(src@)),
{
    let r: usize = if src.len() >= 2 && src[0] == 48 && src[1] == 120 {
        2
    } else {
        0
    };
    assert(as_chars(src@).subrange(r as int, src@.len() as int) =~= unprefixed(as_chars(src@)));
    r
}

/// The value of the digit with the code `b`.
pub(crate) fn byte_digit(b: u8) -> (r: Option<u8>)
    ensures
        r is Some <==> digit_value(b as char) is Some,
        r matches Some(d) ==> d < 16 && d as nat == nibble(b as char),
{
    if b >= 48 && b <= 57 {
        Some(b - 48)
    } else if b >= 97 && b <= 102 {
        Some(b - 87)
    } else if b >= 65 && b <= 70 {
        Some(b - 55)
    } else {
        None
    }
}

/// Whether the characters `src[from..to]` are digits.
pub(crate) fn all_digits(src: &[u8], from: usize, to: usize) -> (r: bool)
    requires
        from <= to <= src.len(),
    ensures
        r == is_hex(as_chars(src@).subrange(from as int, to as int)),
{
    let ghost digits = as_chars(src@).subrange(from as int, to as int);
    let mut k: usize = from;
    while k < to
        invariant
            from <= k <= to <= src.len(),
            digits == as_chars(src@).subrange(from as int, to as int),
            forall|i: int| 0 <= i < k - from ==> (#[trigger] digit_value(digits[i])) is Some,
        decreases to - k,
    {
        assert(digits[k - from] == src@[k as int] as char);
        if byte_digit(src[k]).is_none() {
            return false;
        }
        k += 1;
    }
    true
}

/// The bytes that `count` pairs of digits spell, starting at `from`; `None`
/// when one of the characters is no digit.
pub(crate) fn decode_bytes(src: &[u8], from: usize, count: usize) -> (r: Option<Vec<u8>>)
    requires
        from + 2 * count <= src.len(),
    ensures
        r is Some <==> is_hex(as_chars(src@).subrange(from as int, from + 2 * count)),
        r matches Some(v) ==> v@ == hex_bytes(
            as_chars(src@).subrange(from as int, from + 2 * count),
        ),
{
    let ghost digits = as_chars(src@).subrange(from as int, from + 2 * count);
    let mut out: Vec<u8> = Vec::new();
    let mut k: usize = 0;
    while k < count
        invariant
            k <= count,
            from + 2 * count <= src.len(),
            digits == as_chars(src@).subrange(from as int, from + 2 * count),
            out@.len() == k,
            forall|i: int| 0 <= i < 2 * k ==> (#[trigger] digit_value(digits[i])) is Some,
            forall|i: int| 0 <= i < k ==> out@[i] == #[trigger] hex_bytes(digits)[i],
        decreases count - k,
    {
        let high = byte_digit(src[from + 2 * k]);
        let low = byte_digit(src[from + 2 * k + 1]);
        assert(digits[2 * k] == src@[from + 2 * k] as char);
        assert(digits[2 * k + 1] == src@[from + 2 * k + 1] as char);
        match (high, low) {
            (Some(h), Some(l)) => {
                out.push(h * 16 + l);
            },
            _ => {
                return None;
            },
        }
        k += 1;
    }
    assert(out@ =~= hex_bytes(digits));
    Some(out)
}

/// The text of one lower-case digit.
pub(crate) fn digit_str(d: u8) -> (r: &'static str)
    requires
        d < 16,
    ensures
        r@ == seq![digit_char(d as nat)],
{
    let r = match d {
        0 => "0",
        1 => "1",
        2 => "2",
        3 => "3",
        4 => "4",
        5 => "5",
        6 => "6",
        7 => "7",
        8 => "8",
        9 => "9",
        10 => "a",
        11 => "b",
        12 => "c",
        13 => "d",
        14 => "e",
        _ => "f",
    };
    proof {
        reveal_strlit("0");
        reveal_strlit("1");
        reveal_strlit("2");
        reveal_strlit("3");
        reveal_strlit("4");
        reveal_strlit("5");
        reveal_strlit("6");
        reveal_strlit("7");
        reveal_strlit("8");
        reveal_strlit("9");
        reveal_strlit("a");
        reveal_strlit("b");
        reveal_strlit("c");
        reveal_strlit("d");
        reveal_strlit("e");
        reveal_strlit("f");
        assert(r@ =~= seq![digit_char(d as nat)]);
    }
    r
}

/// A text that holds `0x` and nothing else.
pub fn prefix_text() -> (r: String)
    ensures
        r@ == prefix(),
{
    proof {
        reveal_strlit("0x");
    }
    let r = String::from_str("0x");
    assert(r@ =~= prefix());
    r
}

/// Appends the two digits of each byte of `bytes` to `out`.
pub fn push_hex(out: &mut String, bytes: &[u8])
    ensures
        final(out)@ == old(out)@ + hex_text(bytes@),
{
    let mut k: usize = 0;
    while k < bytes.len()
        invariant
            k <= bytes.len(),
            out@ == old(out)@ + hex_text(bytes@.subrange(0, k as int)),
        decreases bytes.len() - k,
    {
        let b = bytes[k];
        out.append(digit_str(b / 16));
        out.append(digit_str(b % 16));
        proof {
            let done = bytes@.subrange(0, k as int);
            let more = bytes@.subrange(0, k + 1);
            assert(hex_text(more) =~= hex_text(done).push(digit_char(b as nat / 16)).push(
                digit_char(b as nat % 16),
            ));
            assert(out@ =~= old(out)@ + hex_text(more));
        }
        k += 1;
    }
    assert(bytes@.subrange(0, k as int) =~= bytes@);
}

/// `0x` and two lower-case digits for each byte of `bytes`.
pub fn prefixed_hex(bytes: &[u8]) -> (r: String)
    ensures
        r@ == prefix() + hex_text(bytes@),
{
    let mut r = prefix_text();
    push_hex(&mut r, bytes);
    r
}

/// The digits `low`, which stand least significant first, written most
/// significant first.
spec fn turned(low: Seq<u8>) -> Seq<char>
    decreases low.len(),
{
    if low.len() == 0 {
        Seq::empty()
    } else {
        seq![digit_char(low.last() as nat)] + turned(low.drop_last())
    }
}

/// The digits of `rest`, unless it is zero, and behind them the digits
/// `low` turned.
spec fn digits_above(rest: nat, low: Seq<u8>) -> Seq<char> {
    if rest == 0 {
        turned(low)
    } else {
        quantity_digits(rest) + turned(low)
    }
}

/// `0x` and the digits of `n` without leading zeros.
pub fn quantity(n: u64) -> (r: String)
    ensures
        r@ == prefix() + quantity_digits(n as nat),
{
    let mut digits: Vec<u8> = Vec::new();
    let mut rest: u64 = n;
    digits.push((rest % 16) as u8);
    rest = rest / 16;
    proof {
        assert(digits@.drop_last() =~= Seq::<u8>::empty());
        assert(turned(digits@.drop_last()) =~= Seq::<char>::empty());
        assert(turned(digits@) =~= seq![digit_char(n as nat % 16)]);
        assert(quantity_digits(n as nat) =~= digits_above(rest as nat, digits@));
    }
    while rest > 0
        invariant
            digits@.len() > 0,
            forall|i: int| 0 <= i < digits@.len() ==> digits@[i] < 16,
            quantity_digits(n as nat) == digits_above(rest as nat, digits@),
        decreases rest,
    {
        let ghost low = digits@;
        digits.push((rest % 16) as u8);
        proof {
            assert(digits@.drop_last() =~= low);
            assert(turned(digits@) =~= seq![digit_char(rest as nat % 16)] + turned(low));
            assert(quantity_digits(rest as nat) + turned(low) =~= digits_above(
                rest as nat / 16,
                digits@,
            ));
        }
        rest = rest / 16;
    }
    let mut r = prefix_text();
    assert(digits@.subrange(0, digits@.len() as int) =~= digits@);
    let mut k: usize = digits.len();
    while k > 0
        invariant
            k <= digits.len(),
            forall|i: int| 0 <= i < digits@.len() ==> digits@[i] < 16,
            r@ + turned(digits@.subrange(0, k as int)) == prefix() + quantity_digits(n as nat),
        decreases k,
    {
        k -= 1;
        r.append(digit_str(digits[k]));
        proof {
            let upto = digits@.subrange(0, k + 1);
            assert(upto.drop_last() =~= digits@.subrange(0, k as int));
            assert(turned(upto) =~= seq![digit_char(digits@[k as int] as nat)] + turned(
                upto.drop_last(),
            ));
        }
    }
    assert(turned(digits@.subrange(0, 0)) =~= Seq::<char>::empty());
    r
}

} // verus!
