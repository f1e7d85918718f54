use pop3_codec::calculate_apop_digest;
use pop3_codec::utils::hexlify;

#[test]
fn apop_digest_of_the_standard_example() {
    // The example of RFC 1939, section 7.
    assert_eq!(
        calculate_apop_digest("1896.697170952@dbc.mtview.ca.us", "tanstaaf"),
        "c4c9334bac560ecc979e58001b3e22fb"
    );
}

#[test]
fn apop_digest_of_nothing() {
    // The MD5 digest of "<>".
    assert_eq!(
        calculate_apop_digest("", ""),
        format!("{:x}", md5::compute(b"<>"))
    );
    assert_ne!(calculate_apop_digest("", ""), "<>");
}

#[test]
fn apop_digest_hashes_the_bytes_in_order() {
    assert_eq!(
        calculate_apop_digest("a", "b"),
        format!("{:x}", md5::compute(b"<a>b"))
    );
    assert_ne!(
        calculate_apop_digest("a", "b"),
        calculate_apop_digest("b", "a")
    );
}

#[test]
fn hexlify_writes_two_digits_for_each_byte() {
    assert_eq!(hexlify(&[]), "");
    assert_eq!(hexlify(&[0x00]), "00");
    assert_eq!(hexlify(&[0x0f, 0xf0, 0xa9, 0x10]), "0ff0a910");
    assert_eq!(hexlify(&[0xff, 0x9a]), "ff9a");
}
