//! Text on the wire: UTF-8 between bytes and strings, and decimal numerals.

use vstd::prelude::*;
use vstd::string::*;
use vstd::utf8::*;

verus! {

/// `core::str::Utf8Error`: why bytes are no UTF-8. The library only passes
/// it on.
#[verifier::external_type_specification]
#[verifier::external_body]
pub struct ExUtf8Error(core::str::Utf8Error);

/// `core::str::from_utf8` succeeds exactly on well-formed UTF-8, and the
/// string slice it returns has the given bytes as its encoding.
pub assume_specification<'a>[ core::str::from_utf8 ](v: &'a [u8]) -> (r: Result<
    &'a str,
    core::str::Utf8Error,
>)
    ensures
        r is Ok <==> valid_utf8(v@),
        r matches Ok(s) ==> s.spec_bytes() == v@,
;

/// The text that a byte sequence encodes, where it is well-formed UTF-8.
pub open spec fn spec_text(bytes: Seq<u8>) -> Option<Seq<char>> {
    if valid_utf8(bytes) {
        Some(decode_utf8(bytes))
    } else {
        None
    }
}

/// Reads a byte slice as text.
pub fn as_text(bytes: &[u8]) -> (r: Option<&str>)
    ensures
        r.deep_view() == spec_text(bytes@),
{
    match core::str::from_utf8(bytes) {
        Ok(s) => {
            proof {
                encode_utf8_decode_utf8(s@);
            }
            Some(s)
        },
        Err(_) => None,
    }
}

/// The encoding of a concatenation is the concatenation of the encodings.
pub proof fn lemma_encode_concat(a: Seq<char>, b: Seq<char>)
    ensures
        encode_utf8(a + b) == encode_utf8(a) + encode_utf8(b),
    decreases a.len(),
{
    if a.len() == 0 {
        assert(a + b =~= b);
        assert(encode_utf8(a) + encode_utf8(b) =~= encode_utf8(b));
    } else {
        lemma_encode_concat(a.drop_first(), b);
        assert((a + b).drop_first() =~= a.drop_first() + b);
        assert(encode_scalar(a[0] as u32) + (encode_utf8(a.drop_first()) + encode_utf8(b))
            =~= (encode_scalar(a[0] as u32) + encode_utf8(a.drop_first())) + encode_utf8(b));
    }
}

/// In the encoding of one scalar, a byte below `0x80` is the scalar itself.
proof fn lemma_scalar_bytes(v: u32, i: int)
    requires
        is_scalar(v),
        0 <= i < encode_scalar(v).len(),
        encode_scalar(v)[i] < 0x80,
    ensures
        encode_scalar(v)[i] as u32 == v,
{
    assert(forall|x: u8| #![auto] (0xC0u8 | x) >= 0x80) by (bit_vector);
    assert(forall|x: u8| #![auto] (0xE0u8 | x) >= 0x80) by (bit_vector);
    assert(forall|x: u8| #![auto] (0xF0u8 | x) >= 0x80) by (bit_vector);
    assert(forall|x: u8| #![auto] (0x80u8 | x) >= 0x80) by (bit_vector);
    if has_width_1_encoding(v) {
        assert(((v & 0x7F) as u8) as u32 == v) by (bit_vector)
            requires
                v <= 0x7F,
        ;
    }
}

/// Every byte below `0x80` in the encoding of a text is one of its characters.
pub proof fn lemma_ascii_byte_is_char(chars: Seq<char>, i: int)
    requires
        0 <= i < encode_utf8(chars).len(),
        encode_utf8(chars)[i] < 0x80,
    ensures
        exists|j: int|
            0 <= j < chars.len() && #[trigger] chars[j] as u32 == encode_utf8(chars)[i] as u32,
    decreases chars.len(),
{
    if chars.len() > 0 {
        let head = encode_scalar(chars[0] as u32);
        let tail = chars.drop_first();
        char_is_scalar(chars[0]);
        if i < head.len() {
            lemma_scalar_bytes(chars[0] as u32, i);
            assert(chars[0] as u32 == encode_utf8(chars)[i] as u32);
        } else {
            lemma_ascii_byte_is_char(tail, i - head.len());
            let j = choose|j: int|
                0 <= j < tail.len() && #[trigger] tail[j] as u32 == encode_utf8(tail)[i
                    - head.len()] as u32;
            assert(chars[j + 1] == tail[j]);
        }
    }
}

/// A text without a given ASCII character has an encoding without its byte.
pub proof fn lemma_encode_lacks(chars: Seq<char>, byte: u8)
    requires
        byte < 0x80,
        forall|j: int| 0 <= j < chars.len() ==> #[trigger] chars[j] as u32 != byte as u32,
    ensures
        forall|i: int|
            0 <= i < encode_utf8(chars).len() ==> #[trigger] encode_utf8(chars)[i] != byte,
{
    assert forall|i: int| 0 <= i < encode_utf8(chars).len() implies #[trigger] encode_utf8(
        chars,
    )[i] != byte by {
        if encode_utf8(chars)[i] == byte {
            lemma_ascii_byte_is_char(chars, i);
        }
    }
}

/// The bytes of an ASCII text are its characters, one for one.
pub proof fn lemma_encode_ascii(chars: Seq<char>)
    requires
        is_ascii_chars(chars),
    ensures
        encode_utf8(chars).len() == chars.len(),
        forall|i: int| 0 <= i < chars.len() ==> #[trigger] encode_utf8(chars)[i] == chars[i] as u8,
{
    is_ascii_chars_encode_utf8(chars);
}

// ----- decimal numerals -----
/// The character of a decimal digit.
pub open spec fn digit_char(d: nat) -> char
    recommends
        d < 10,
{
    ((0x30 + d) as u8) as char
}

/// The decimal numeral of `n`, without leading zeros.
pub open spec fn decimal(n: nat) -> Seq<char>
    decreases n,
{
    if n < 10 {
        seq![digit_char(n)]
    } else {
        decimal(n / 10).push(digit_char(n % 10))
    }
}

/// The number that a sequence of digit bytes denotes, leading zeros allowed.
pub open spec fn decimal_value(digits: Seq<u8>) -> nat
    decreases digits.len(),
{
    if digits.len() == 0 {
        0
    } else {
        (decimal_value(digits.drop_last()) * 10 + (digits.last() - 0x30)) as nat
    }
}

/// A decimal numeral is made of digits, and is ASCII.
pub proof fn lemma_decimal_digits(n: nat)
    ensures
        decimal(n).len() > 0,
        is_ascii_chars(decimal(n)),
        forall|i: int| 0 <= i < decimal(n).len() ==> 0x30 <= #[trigger] decimal(n)[i] as u8 <= 0x39,
    decreases n,
{
    if n >= 10 {
        lemma_decimal_digits(n / 10);
    }
}

/// The digits of the numeral of `n` denote `n`.
pub proof fn lemma_decimal_value(n: nat)
    ensures
        decimal_value(encode_utf8(decimal(n))) == n,
    decreases n,
{
    lemma_decimal_digits(n);
    lemma_encode_ascii(decimal(n));
    let bytes = encode_utf8(decimal(n));
    if n < 10 {
        assert(bytes.drop_last().len() == 0);
        assert(decimal_value(bytes.drop_last()) == 0);
        assert(bytes.last() == (0x30 + n) as u8);
    } else {
        lemma_decimal_digits(n / 10);
        lemma_encode_ascii(decimal(n / 10));
        lemma_decimal_value(n / 10);
        assert(bytes.drop_last() =~= encode_utf8(decimal(n / 10)));
        assert(bytes.last() == (0x30 + n % 10) as u8);
    }
}

/// The numeral of `n` as bytes.
pub fn decimal_bytes(n: u32) -> (r: Vec<u8>)
    ensures
        r@ == encode_utf8(decimal(n as nat)),
{
    let mut digits: Vec<u8> = Vec::new();
    let mut rest: u32 = n;
    // The digits, least significant first.
    while rest >= 10
        invariant
            forall|i: int| 0 <= i < digits@.len() ==> 0x30 <= #[trigger] digits@[i] <= 0x39,
            decimal(n as nat) =~= decimal(rest as nat) + Seq::new(
                digits@.len(),
                |i: int| digits@[digits@.len() - 1 - i] as char,
            ),
        decreases rest,
    {
        let ghost before = digits@;
        digits.push(0x30 + (rest % 10) as u8);
        proof {
            let tail_before = Seq::new(before.len(), |i: int| before[before.len() - 1 - i] as char);
            let tail_after = Seq::new(
                digits@.len(),
                |i: int| digits@[digits@.len() - 1 - i] as char,
            );
            assert(decimal(rest as nat) == decimal((rest / 10) as nat).push(
                digit_char((rest % 10) as nat),
            ));
            assert(decimal((rest / 10) as nat).push(digit_char((rest % 10) as nat)) + tail_before
                =~= decimal((rest / 10) as nat) + tail_after);
        }
        rest = rest / 10;
    }
    digits.push(0x30 + rest as u8);
    let mut out: Vec<u8> = Vec::new();
    let mut k: usize = digits.len();
    proof {
        lemma_decimal_digits(n as nat);
        lemma_encode_ascii(decimal(n as nat));
        assert(decimal(rest as nat) =~= seq![digit_char(rest as nat)]);
    }
    while k > 0
        invariant
            k <= digits@.len(),
            digits@.len() == decimal(n as nat).len(),
            out@.len() == digits@.len() - k,
            forall|i: int|
                0 <= i < digits@.len() ==> #[trigger] decimal(n as nat)[i] as u8
                    == digits@[digits@.len() - 1 - i],
            forall|i: int| 0 <= i < out@.len() ==> #[trigger] out@[i] == decimal(n as nat)[i] as u8,
        decreases k,
    {
        k -= 1;
        out.push(digits[k]);
    }
    assert(out@ =~= encode_utf8(decimal(n as nat)));
    out
}

/// The numeral of `n` as a string.
pub fn decimal_string(n: u32) -> (r: String)
    ensures
        r@ == decimal(n as nat),
{
    let bytes = decimal_bytes(n);
    proof {
        lemma_decimal_digits(n as nat);
        lemma_encode_ascii(decimal(n as nat));
    }
    ascii_string(bytes.as_slice(), Ghost(decimal(n as nat)))
}

/// The string whose characters are the given ASCII bytes.
pub(crate) fn ascii_string(bytes: &[u8], Ghost(chars): Ghost<Seq<char>>) -> (r: String)
    requires
        is_ascii_chars(chars),
        bytes@.len() == chars.len(),
        forall|i: int| 0 <= i < chars.len() ==> bytes@[i] == #[trigger] chars[i] as u8,
    ensures
        r@ == chars,
{
    proof {
        lemma_encode_ascii(chars);
        assert(bytes@ =~= encode_utf8(chars));
        encode_utf8_valid_utf8(chars);
        encode_utf8_decode_utf8(chars);
    }
    match as_text(bytes) {
        Some(s) => s.to_owned(),
        None => String::new(),
    }
}

} // verus!
