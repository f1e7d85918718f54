use pop3_codec::parse::greeting;
use pop3_codec::parse::token::ParseError;
use pop3_codec::types::response::Greeting;

fn cases() -> Vec<(&'static [u8], Greeting)> {
    vec![
        (
            b"+OK\r\n",
            Greeting {
                code: vec![],
                comment: "".into(),
                timestamp: None,
            },
        ),
        (
            b"+OK \r\n",
            Greeting {
                code: vec![],
                comment: "".into(),
                timestamp: None,
            },
        ),
        (
            b"+OK A\r\n",
            Greeting {
                code: vec![],
                comment: "A".into(),
                timestamp: None,
            },
        ),
        (
            b"+OK Z\r\n",
            Greeting {
                code: vec![],
                comment: "Z".into(),
                timestamp: None,
            },
        ),
        (
            b"+ok Hello World!\r\n",
            Greeting {
                code: vec![],
                comment: "Hello World!".into(),
                timestamp: None,
            },
        ),
        (
            b"+ok Hello <123> World!\r\n",
            Greeting {
                code: vec![],
                comment: "Hello <> World!".into(),
                timestamp: Some("123".into()),
            },
        ),
        (
            b"+ok [a] Hello World!\r\n",
            Greeting {
                code: vec!["a".into()],
                comment: "Hello World!".into(),
                timestamp: None,
            },
        ),
        (
            b"+ok [a] Hello <123> World!\r\n",
            Greeting {
                code: vec!["a".into()],
                comment: "Hello <> World!".into(),
                timestamp: Some("123".into()),
            },
        ),
    ]
}

#[test]
fn test_greeting() {
    for (test, expected) in cases() {
        let (rem, got) = greeting(test).unwrap();
        assert!(rem.is_empty());
        assert_eq!(expected, got);
    }
}

#[test]
fn test_greetings() {
    for (test, expected) in cases() {
        let (rem, got) = greeting(test).unwrap();
        assert!(rem.is_empty());
        assert_eq!(expected, got);
    }
}

#[test]
fn greeting_with_two_levels() {
    let (rem, got) = greeting(b"+ok [a/b] text\r\n").unwrap();
    assert!(rem.is_empty());
    assert_eq!(
        got,
        Greeting {
            code: vec!["a".into(), "b".into()],
            comment: "text".into(),
            timestamp: None,
        }
    );
}

#[test]
fn greeting_leaves_what_follows() {
    let (rem, got) = greeting(b"+OK POP3 server ready <1896.697170952@dbc.mtview.ca.us>\r\n+OK\r\n")
        .unwrap();
    assert_eq!(rem, b"+OK\r\n");
    assert_eq!(got.comment, "POP3 server ready <>");
    assert_eq!(
        got.timestamp,
        Some("1896.697170952@dbc.mtview.ca.us".to_string())
    );
}

#[test]
fn greeting_with_unclosed_code_is_a_comment() {
    let (rem, got) = greeting(b"+OK [abc\r\n").unwrap();
    assert!(rem.is_empty());
    assert!(got.code.is_empty());
    assert_eq!(got.comment, "[abc");
}

#[test]
fn greeting_code_without_comment() {
    let (rem, got) = greeting(b"+OK [a]\r\n").unwrap();
    assert!(rem.is_empty());
    assert_eq!(got.code, vec!["a".to_string()]);
    assert_eq!(got.comment, "");
}

#[test]
fn greeting_timestamp_may_hold_line_endings() {
    let (rem, got) = greeting(b"+OK <a\r\nb>\r\n").unwrap();
    assert!(rem.is_empty());
    assert_eq!(got.comment, "<>");
    assert_eq!(got.timestamp, Some("a\r\nb".to_string()));
}

#[test]
fn truncated_greetings_are_incomplete() {
    let inputs: [&[u8]; 3] = [
        b"+OK\r\n",
        b"+ok Hello <123> World!\r\n",
        b"+ok [a/b] text\r\n",
    ];
    for input in inputs {
        for cut in 0..input.len() - 2 {
            assert_eq!(
                greeting(&input[..cut]).unwrap_err(),
                ParseError::Incomplete,
                "{:?}",
                &input[..cut]
            );
        }
    }
}

#[test]
fn greeting_rejects_a_negative_status() {
    assert_eq!(greeting(b"-ERR\r\n").unwrap_err(), ParseError::Syntax);
}

#[test]
fn greeting_rejects_a_timestamp_that_is_not_utf8() {
    assert_eq!(
        greeting(b"+OK <\xff>\r\n").unwrap_err(),
        ParseError::Syntax
    );
}

#[test]
fn greeting_rejects_a_second_timestamp() {
    assert_eq!(
        greeting(b"+OK <1> <2>\r\n").unwrap_err(),
        ParseError::Syntax
    );
}
