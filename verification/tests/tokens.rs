use pop3_codec::parse::charset::{
    is_alpha, is_auth_char, is_base64_char, is_cchar, is_digit, is_gchar, is_rchar, is_schar,
};
use pop3_codec::parse::token::{
    language, line_ending, not_line_ending, number, param, tag, tag_no_case, take_while,
    take_while1, take_while_m_n, ByteClass, ParseError,
};
use pop3_codec::text::{decimal_bytes, decimal_string};

fn bytes_where(pred: fn(u8) -> bool) -> Vec<u8> {
    (0..=255u8).filter(|b| pred(*b)).collect()
}

fn range(from: u8, to: u8) -> Vec<u8> {
    (from..=to).collect()
}

#[test]
fn byte_classes() {
    let letters = [range(0x41, 0x5A), range(0x61, 0x7A)].concat();
    assert_eq!(bytes_where(is_alpha), letters);
    assert_eq!(bytes_where(is_digit), range(0x30, 0x39));
    assert_eq!(
        bytes_where(is_auth_char),
        [
            vec![b'-'],
            range(0x30, 0x39),
            range(0x41, 0x5A),
            vec![b'_'],
            range(0x61, 0x7A)
        ]
        .concat()
    );
    assert_eq!(
        bytes_where(is_base64_char),
        [
            vec![b'+'],
            vec![b'/'],
            range(0x30, 0x39),
            range(0x41, 0x5A),
            range(0x61, 0x7A)
        ]
        .concat()
    );
    assert_eq!(
        bytes_where(is_rchar),
        [range(0x21, 0x2E), range(0x30, 0x5C), range(0x5E, 0x7F)].concat()
    );
    assert_eq!(
        bytes_where(is_gchar),
        [range(0x20, 0x3B), range(0x3D, 0x7F)].concat()
    );
    assert_eq!(
        bytes_where(is_schar),
        [range(0x20, 0x5A), range(0x5C, 0x7F)].concat()
    );
    assert_eq!(
        bytes_where(is_cchar),
        [range(0x21, 0x2D), range(0x2F, 0x7F)].concat()
    );
}

#[test]
fn classes_of_the_outside_crates() {
    let letters = [range(0x41, 0x5A), range(0x61, 0x7A)].concat();
    assert_eq!(
        bytes_where(|b| ByteClass::Alpha.holds(b)),
        letters
    );
    assert_eq!(
        bytes_where(|b| ByteClass::Visible.holds(b)),
        range(0x21, 0x7E)
    );
    assert_eq!(
        bytes_where(|b| ByteClass::Alphanumeric.holds(b)),
        [range(0x30, 0x39), letters].concat()
    );
}

#[test]
fn language_tags() {
    let (rest, tag) = language(b"en\r\n").unwrap();
    assert_eq!(tag, "en");
    assert_eq!(rest, b"\r\n");
    let (rest, tag) = language(b"i-default ").unwrap();
    assert_eq!(tag, "i-default");
    assert_eq!(rest, b" ");
    // Digits are letters of a subtag, not of the first tag.
    let (rest, tag) = language(b"de-1996 ").unwrap();
    assert_eq!(tag, "de-1996");
    assert_eq!(rest, b" ");
    assert_eq!(language(b"1996 ").unwrap_err(), ParseError::Syntax);
    let (rest, tag) = language(b"de1 ").unwrap();
    assert_eq!(tag, "de");
    assert_eq!(rest, b"1 ");
    // A tag is cut after eight letters, and a dash without a subtag is left.
    let (rest, tag) = language(b"abcdefghij ").unwrap();
    assert_eq!(tag, "abcdefgh");
    assert_eq!(rest, b"ij ");
    let (rest, tag) = language(b"en-\r\n").unwrap();
    assert_eq!(tag, "en");
    assert_eq!(rest, b"-\r\n");
    assert_eq!(language(b"en").unwrap_err(), ParseError::Incomplete);
    assert_eq!(language(b"en-").unwrap_err(), ParseError::Incomplete);
    assert_eq!(language(b"").unwrap_err(), ParseError::Incomplete);
}

#[test]
fn params_are_visible_characters() {
    let (rest, word) = param(b"~!x \r\n").unwrap();
    assert_eq!(word, "~!x");
    assert_eq!(rest, b" \r\n");
    assert_eq!(param(b" x").unwrap_err(), ParseError::Syntax);
    assert_eq!(param(b"\x7fx").unwrap_err(), ParseError::Syntax);
    assert_eq!(param(b"x").unwrap_err(), ParseError::Incomplete);
}

#[test]
fn decimal_numerals() {
    assert_eq!(decimal_bytes(0), b"0");
    assert_eq!(decimal_bytes(9), b"9");
    assert_eq!(decimal_bytes(10), b"10");
    assert_eq!(decimal_bytes(4294967295), b"4294967295");
    assert_eq!(decimal_string(1009), "1009");
}

// ----- the primitive tokens behave as nom's streaming parsers do -----

type NomError<'a> = nom::error::Error<&'a [u8]>;

fn outcome<T>(r: Result<(&[u8], T), ParseError>) -> Result<usize, ParseError> {
    r.map(|(rest, _)| rest.len())
}

fn nom_outcome<T>(r: nom::IResult<&[u8], T, NomError>) -> Result<usize, ParseError> {
    match r {
        Ok((rest, _)) => Ok(rest.len()),
        Err(nom::Err::Incomplete(_)) => Err(ParseError::Incomplete),
        Err(_) => Err(ParseError::Syntax),
    }
}

fn corpus() -> Vec<Vec<u8>> {
    let seeds: Vec<&[u8]> = vec![
        b"",
        b"\r",
        b"\n",
        b"\r\n",
        b"\rx",
        b"\r\r\n",
        b"abc\r\n",
        b"abc\n",
        b"abc\r",
        b"abc\rdef\r\n",
        b"abc",
        b"USER mrose\r\n",
        b"user",
        b"UsEr",
        b"US",
        b"USE\r",
        b"uses",
        b"123",
        b"123 ",
        b"0123456789x",
        b"4294967295\r\n",
        b" USER\r\n",
        b" use",
        b"abcdefghijkl-mn",
        b"abcdefgh",
        b"abcdefg",
        b"a-b-c ",
        b"-x",
        b"=",
        b"==",
        b"=a",
        b".\r\n",
        b"[a/b] c\r\n",
        b"<12> ",
        b"\xff\xfe\r\n",
        b"+OK\r\n",
        b"+ok",
        b"-ERR x\r\n",
    ];
    seeds.into_iter().map(|s| s.to_vec()).collect()
}

#[test]
fn line_endings_as_in_nom() {
    for input in corpus() {
        assert_eq!(
            outcome(line_ending(&input)),
            nom_outcome(nom::character::streaming::line_ending::<&[u8], NomError>(
                &input
            )),
            "{:?}",
            input
        );
        assert_eq!(
            outcome(not_line_ending(&input)),
            nom_outcome(nom::character::streaming::not_line_ending::<
                &[u8],
                NomError,
            >(&input)),
            "{:?}",
            input
        );
    }
}

#[test]
fn tags_as_in_nom() {
    let tags = ["USER", "+OK", "-ERR", " USER", "=", "==", ".", "[", "NEVER"];
    for input in corpus() {
        for t in tags {
            assert_eq!(
                outcome(tag(&input, t)),
                nom_outcome(nom::bytes::streaming::tag::<&str, &[u8], NomError>(t)(
                    &input
                )),
                "{:?} {:?}",
                t,
                input
            );
            assert_eq!(
                outcome(tag_no_case(&input, t)),
                nom_outcome(nom::bytes::streaming::tag_no_case::<
                    &str,
                    &[u8],
                    NomError,
                >(t)(&input)),
                "{:?} {:?}",
                t,
                input
            );
        }
    }
}

#[test]
fn runs_as_in_nom() {
    for input in corpus() {
        assert_eq!(
            outcome(take_while(&input, ByteClass::Base64)),
            nom_outcome(nom::bytes::streaming::take_while::<_, &[u8], NomError>(
                is_base64_char
            )(&input)),
            "{:?}",
            input
        );
        assert_eq!(
            outcome(take_while(&input, ByteClass::NotSpace)),
            nom_outcome(nom::bytes::streaming::take_while::<_, &[u8], NomError>(
                |b| b != b' '
            )(&input)),
            "{:?}",
            input
        );
        assert_eq!(
            outcome(take_while(&input, ByteClass::NotGreater)),
            nom_outcome(nom::bytes::streaming::take_till::<_, &[u8], NomError>(
                |b| b == b'>'
            )(&input)),
            "{:?}",
            input
        );
        assert_eq!(
            outcome(take_while1(&input, ByteClass::Level)),
            nom_outcome(nom::bytes::streaming::take_while1::<_, &[u8], NomError>(
                is_rchar
            )(&input)),
            "{:?}",
            input
        );
        assert_eq!(
            outcome(take_while_m_n(&input, 1, 8, ByteClass::Alpha)),
            nom_outcome(nom::bytes::streaming::take_while_m_n::<
                _,
                &[u8],
                NomError,
            >(1, 8, is_alpha)(&input)),
            "{:?}",
            input
        );
        assert_eq!(
            outcome(take_while_m_n(&input, 1, 70, ByteClass::UniqueId)),
            nom_outcome(nom::bytes::streaming::take_while_m_n::<
                _,
                &[u8],
                NomError,
            >(1, 70, |b| (0x21..=0x7e).contains(&b))(&input)),
            "{:?}",
            input
        );
    }
}

#[test]
fn digits_as_in_nom() {
    for input in corpus() {
        let ours = number(&input);
        let theirs = nom::character::streaming::digit1::<&[u8], NomError>(&input);
        match theirs {
            Ok((rest, digits)) => {
                let text = std::str::from_utf8(digits).unwrap();
                match text.parse::<u32>() {
                    Ok(value) => assert_eq!(ours, Ok((rest, value))),
                    Err(_) => assert_eq!(ours.unwrap_err(), ParseError::Syntax),
                }
            }
            Err(nom::Err::Incomplete(_)) => {
                assert_eq!(ours.unwrap_err(), ParseError::Incomplete)
            }
            Err(_) => assert_eq!(ours.unwrap_err(), ParseError::Syntax),
        }
    }
}
