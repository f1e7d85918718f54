//! The byte classes that bound the tokens of the grammar.

use vstd::prelude::*;

verus! {

/// `A-Z` or `a-z`.
pub open spec fn spec_is_alpha(byte: u8) -> bool {
    (0x41 <= byte <= 0x5A) || (0x61 <= byte <= 0x7A)
}

/// `0-9`.
pub open spec fn spec_is_digit(byte: u8) -> bool {
    0x30 <= byte <= 0x39
}

/// A letter or a digit.
pub open spec fn spec_is_alphanumeric(byte: u8) -> bool {
    spec_is_alpha(byte) || spec_is_digit(byte)
}

/// Visible ASCII, `%x21-7E`.
pub open spec fn spec_is_vchar(byte: u8) -> bool {
    0x21 <= byte <= 0x7E
}

/// A byte of a SASL mechanism name: a letter, a digit, `-` or `_`.
pub open spec fn spec_is_auth_char(byte: u8) -> bool {
    spec_is_alpha(byte) || spec_is_digit(byte) || byte == 0x2D || byte == 0x5F
}

/// A byte of the base64 alphabet without padding: a letter, a digit, `+` or `/`.
pub open spec fn spec_is_base64_char(byte: u8) -> bool {
    spec_is_alpha(byte) || spec_is_digit(byte) || byte == 0x2B || byte == 0x2F
}

/// A byte of a response level: printable ASCII and DEL, without `/` and `]`.
pub open spec fn spec_is_rchar(byte: u8) -> bool {
    (0x21 <= byte <= 0x2E) || (0x30 <= byte <= 0x5C) || (0x5E <= byte <= 0x7F)
}

/// A byte of a greeting comment: space, printable ASCII and DEL, without `<`.
pub open spec fn spec_is_gchar(byte: u8) -> bool {
    (0x20 <= byte <= 0x3B) || (0x3D <= byte <= 0x7F)
}

/// A byte of a status comment: space, printable ASCII and DEL, without `[`.
pub open spec fn spec_is_schar(byte: u8) -> bool {
    (0x20 <= byte <= 0x5A) || (0x5C <= byte <= 0x7F)
}

/// A byte of a capability tag: printable ASCII and DEL, without `.`.
pub open spec fn spec_is_cchar(byte: u8) -> bool {
    (0x21 <= byte <= 0x2D) || (0x2F <= byte <= 0x7F)
}

/// A byte of a unique id, `%x21-7E`.
pub open spec fn spec_is_uid_char(byte: u8) -> bool {
    0x21 <= byte <= 0x7E
}

/// The lower-case form of an ASCII capital, and every other byte unchanged.
pub open spec fn spec_lowercase(byte: u8) -> u8 {
    if 0x41 <= byte <= 0x5A {
        (byte + 0x20) as u8
    } else {
        byte
    }
}

/// Whether the byte is of the class [`spec_is_alpha`].
pub fn is_alpha(byte: u8) -> (r: bool)
    ensures
        r == spec_is_alpha(byte),
{
    (0x41 <= byte && byte <= 0x5A) || (0x61 <= byte && byte <= 0x7A)
}

/// Whether the byte is of the class [`spec_is_digit`].
pub fn is_digit(byte: u8) -> (r: bool)
    ensures
        r == spec_is_digit(byte),
{
    0x30 <= byte && byte <= 0x39
}

/// Whether the byte is of the class [`spec_is_auth_char`].
pub fn is_auth_char(byte: u8) -> (r: bool)
    ensures
        r == spec_is_auth_char(byte),
{
    is_alpha(byte) || is_digit(byte) || byte == 0x2D || byte == 0x5F
}

/// Whether the byte is of the class [`spec_is_base64_char`].
pub fn is_base64_char(byte: u8) -> (r: bool)
    ensures
        r == spec_is_base64_char(byte),
{
    is_alpha(byte) || is_digit(byte) || byte == 0x2B || byte == 0x2F
}

/// Whether the byte is of the class [`spec_is_rchar`].
pub fn is_rchar(byte: u8) -> (r: bool)
    ensures
        r == spec_is_rchar(byte),
{
    (0x21 <= byte && byte <= 0x2E) || (0x30 <= byte && byte <= 0x5C) || (0x5E <= byte && byte
        <= 0x7F)
}

/// Whether the byte is of the class [`spec_is_gchar`].
pub fn is_gchar(byte: u8) -> (r: bool)
    ensures
        r == spec_is_gchar(byte),
{
    (0x20 <= byte && byte <= 0x3B) || (0x3D <= byte && byte <= 0x7F)
}

/// Whether the byte is of the class [`spec_is_schar`].
pub fn is_schar(byte: u8) -> (r: bool)
    ensures
        r == spec_is_schar(byte),
{
    (0x20 <= byte && byte <= 0x5A) || (0x5C <= byte && byte <= 0x7F)
}

/// Whether the byte is of the class [`spec_is_cchar`].
pub fn is_cchar(byte: u8) -> (r: bool)
    ensures
        r == spec_is_cchar(byte),
{
    (0x21 <= byte && byte <= 0x2D) || (0x2F <= byte && byte <= 0x7F)
}

/// Whether the byte is of the class [`spec_is_uid_char`].
pub fn is_uid_char(byte: u8) -> (r: bool)
    ensures
        r == spec_is_uid_char(byte),
{
    0x21 <= byte && byte <= 0x7E
}

/// The lower-case form of an ASCII capital, and every other byte unchanged.
pub fn lowercase(byte: u8) -> (r: u8)
    ensures
        r == spec_lowercase(byte),
{
    if 0x41 <= byte && byte <= 0x5A {
        byte + 0x20
    } else {
        byte
    }
}

/// `abnf_core::is_alpha` on a byte: true exactly for the ASCII letters
/// `%x41-5A` and `%x61-7A`.
#[verifier::external_body]
pub(crate) fn abnf_is_alpha(byte: u8) -> (r: bool)
    ensures
        r == spec_is_alpha(byte),
{
    abnf_core::is_alpha(byte)
}

/// `abnf_core::is_vchar` on a byte: true exactly for the visible characters
/// `%x21-7E`.
#[verifier::external_body]
pub(crate) fn abnf_is_vchar(byte: u8) -> (r: bool)
    ensures
        r == spec_is_vchar(byte),
{
    abnf_core::is_vchar(byte)
}

/// `nom::character::is_alphanumeric`: true exactly for ASCII letters and
/// ASCII digits.
pub assume_specification[ nom::character::is_alphanumeric ](chr: u8) -> (r: bool)
    ensures
        r == spec_is_alphanumeric(chr),
;

} // verus!
