//! The digest of the APOP command.

use crate::text::ascii_string;
use vstd::prelude::*;
use vstd::string::*;
use vstd::utf8::*;

verus! {

/// The MD5 digest of a message: sixteen bytes.
pub uninterp spec fn md5_digest(data: Seq<u8>) -> Seq<u8>;

/// `md5::compute`: the MD5 digest of the bytes, which depends on nothing
/// but the bytes.
#[verifier::external_body]
fn md5_of(data: &[u8]) -> (r: [u8; 16])
    ensures
        r@ == md5_digest(data@),
{
    md5::compute(data).0
}

/// The lower-case hexadecimal digit of a value below sixteen.
pub open spec fn spec_hex_digit(value: u8) -> char
    recommends
        value < 16,
{
    if value < 10 {
        ((0x30 + value) as u8) as char
    } else {
        ((0x57 + value) as u8) as char
    }
}

/// The bytes in lower-case hexadecimal, two digits for each byte.
pub open spec fn spec_hexlify(bytes: Seq<u8>) -> Seq<char> {
    Seq::new(
        2 * bytes.len(),
        |i: int|
            if i % 2 == 0 {
                spec_hex_digit(bytes[i / 2] / 16)
            } else {
                spec_hex_digit(bytes[i / 2] % 16)
            },
    )
}

/// What is hashed for APOP: the timestamp in angle brackets, and the password.
pub open spec fn spec_apop_message(timestamp: Seq<char>, password: Seq<char>) -> Seq<u8> {
    encode_utf8("<"@ + timestamp + ">"@ + password)
}

fn hex_digit(value: u8) -> (r: u8)
    requires
        value < 16,
    ensures
        r as char == spec_hex_digit(value),
        r < 0x80,
{
    if value < 10 {
        0x30 + value
    } else {
        0x57 + value
    }
}

/// The bytes in lower-case hexadecimal, two digits for each byte.
pub fn hexlify(bytes: &[u8]) -> (r: String)
    ensures
        r@ == spec_hexlify(bytes@),
{
    let mut out: Vec<u8> = Vec::new();
    let mut i: usize = 0;
    while i < bytes.len()
        invariant
            i <= bytes@.len(),
            out@.len() == 2 * i,
            forall|j: int|
                0 <= j < out@.len() ==> out@[j] < 0x80 && #[trigger] out@[j] as char
                    == spec_hexlify(bytes@)[j],
        decreases bytes.len() - i,
    {
        out.push(hex_digit(bytes[i] / 16));
        out.push(hex_digit(bytes[i] % 16));
        i += 1;
    }
    proof {
        assert forall|j: int| 0 <= j < spec_hexlify(bytes@).len() implies out@[j]
            == #[trigger] spec_hexlify(bytes@)[j] as u8 by {
            assert(out@[j] as char == spec_hexlify(bytes@)[j]);
        }
        assert forall|j: int| 0 <= j < spec_hexlify(bytes@).len() implies '\0'
            <= #[trigger] spec_hexlify(bytes@)[j] <= '\u{7f}' by {
            assert(out@[j] as char == spec_hexlify(bytes@)[j]);
        }
    }
    ascii_string(out.as_slice(), Ghost(spec_hexlify(bytes@)))
}

/// The digest that APOP sends: the MD5 digest of `<timestamp>password`,
/// in lower-case hexadecimal. The timestamp is given without its angle
/// brackets.
pub fn calculate_apop_digest(timestamp: &str, password: &str) -> (r: String)
    ensures
        r@ == spec_hexlify(md5_digest(spec_apop_message(timestamp@, password@))),
{
    let mut message = "<".to_owned();
    message.append(timestamp);
    message.append(">");
    message.append(password);
    let digest = md5_of(message.as_str().as_bytes());
    hexlify(digest.as_slice())
}

} // verus!
