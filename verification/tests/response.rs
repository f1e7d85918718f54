use pop3_codec::parse::response::{
    capability, dot_stuffed, drop_listing, head, language_listing, listing, multi_line, resp_code,
    scan_listing, single_line, timestamp, unique_id_listing,
};
use pop3_codec::parse::token::{line_text, ParseError};
use pop3_codec::parse::{
    response_apop, response_capa, response_dele, response_lang, response_lang_all,
    response_list, response_list_all, response_noop, response_pass, response_quit,
    response_retr, response_rset, response_stat, response_top, response_uidl,
    response_uidl_all, response_user,
};
use pop3_codec::types::response::{
    Capability, DropListing, ExpirePolicy, LanguageListing, MultiLine, Response, ScanListing,
    SingleLine, UniqueIdListing,
};

#[test]
fn test_response() {
    println!(
        "{:#?}",
        response_quit(b"+OK dewey POP3 server signing off\r\n")
            .unwrap()
            .1
    );
    println!("{:#?}", response_stat(b"+OK 2 320\r\n").unwrap().1);
    println!(
        "{:#?}",
        response_list_all(
            b"+OK 2 messages (320 octets)
1 120
2 200
.
",
        )
        .unwrap()
        .1
    );
    println!("{:#?}", response_list(b"+OK 2 200\r\n").unwrap().1);
    println!(
        "{:#?}",
        response_list(b"-ERR no such message, only 2 messages in maildrop\r\n")
            .unwrap()
            .1
    );
    println!(
        "{:#?}",
        response_retr(
            b"+OK 120 octets
<the POP3 server sends the entire message here>
.
",
        )
        .unwrap()
        .1
    );
    println!(
        "{:#?}",
        response_dele(b"+OK message 1 deleted\r\n").unwrap().1
    );
    println!(
        "{:#?}",
        response_dele(b"-ERR message 2 already deleted\r\n")
            .unwrap()
            .1
    );
    println!("{:#?}", response_noop(b"+OK\r\n").unwrap().1);
    println!(
        "{:#?}",
        response_rset(b"+OK maildrop has 2 messages (320 octets)\r\n")
            .unwrap()
            .1
    );
    println!(
        "{:#?}",
        response_quit(b"+OK dewey POP3 server signing off (maildrop empty)\r\n")
            .unwrap()
            .1
    );
    println!(
        "{:#?}",
        response_quit(b"+OK dewey POP3 server signing off (2 messages left)\r\n")
            .unwrap()
            .1
    );
    println!("{:#?}", response_top(b"+OK
<the POP3 server sends the headers of the message, a blank line, and the first 10 lines of the body of the message>
.
").unwrap().1);
    println!(
        "{:#?}",
        response_top(b"-ERR no such message\r\n").unwrap().1
    );
    println!(
        "{:#?}",
        response_uidl_all(
            b"+OK
1 whqtswO00WBw418f9t5JxYwZ
2 QhdPYR:00WBw1Ph7x7
.
",
        )
        .unwrap()
        .1
    );
    println!(
        "{:#?}",
        response_uidl(b"+OK 2 QhdPYR:00WBw1Ph7x7\r\n").unwrap().1
    );
    println!(
        "{:#?}",
        response_uidl(b"-ERR no such message, only 2 messages in maildrop\r\n")
            .unwrap()
            .1
    );
    println!(
        "{:#?}",
        response_user(b"-ERR sorry, no mailbox for frated here\r\n")
            .unwrap()
            .1
    );
    println!(
        "{:#?}",
        response_user(b"+OK mrose is a real hoopy frood\r\n")
            .unwrap()
            .1
    );
    println!(
        "{:#?}",
        response_pass(b"-ERR maildrop already locked\r\n")
            .unwrap()
            .1
    );
    println!(
        "{:#?}",
        response_pass(b"+OK mrose's maildrop has 2 messages (320 octets)\r\n")
            .unwrap()
            .1
    );
    println!(
        "{:#?}",
        response_apop(b"+OK maildrop has 1 message (369 octets)\r\n")
            .unwrap()
            .1
    );

    println!(
        "{:#?}",
        response_lang(b"-ERR invalid language MUL\r\n").unwrap().1
    );
    println!(
        "{:#?}",
        response_lang_all(
            b"+OK Language listing follows:
en English
en-boont English Boontling dialect
de Deutsch
it Italiano
es Espanol
sv Svenska
i-default Default language
.
"
        )
        .unwrap()
        .1
    );
    println!(
        "{:#?}",
        response_lang_all(b"-ERR Server is unable to list languages\r\n")
            .unwrap()
            .1
    );
    println!(
        "{:#?}",
        response_lang(b"+OK es Idioma cambiado\r\n").unwrap().1
    );
    println!(
        "{:#?}",
        response_lang(b"-ERR es Idioma <<UGA>> no es conocido\r\n")
            .unwrap()
            .1
    );
    println!(
        "{:#?}",
        response_lang(b"+OK sv Kommandot \"LANG\" lyckades\r\n")
            .unwrap()
            .1
    );
    println!(
        "{:#?}",
        response_lang(b"+OK es Idioma cambiado\r\n").unwrap().1
    );
}

#[test]
fn test_single_lines() {
    let tests: &[(&[u8], Response<SingleLine, SingleLine>)] = &[
        (
            b"+OK\r\n",
            Response::Positive(SingleLine {
                code: vec![],
                comment: "".into(),
            }),
        ),
        (
            b"+OK \r\n",
            Response::Positive(SingleLine {
                code: vec![],
                comment: "".into(),
            }),
        ),
        (
            b"+OK ABC!\r\n",
            Response::Positive(SingleLine {
                code: vec![],
                comment: "ABC!".into(),
            }),
        ),
        (
            b"+OK [a] ABC!\r\n",
            Response::Positive(SingleLine {
                code: vec!["a".into()],
                comment: "ABC!".into(),
            }),
        ),
        (
            b"+OK [a/b] ABC! 1 < 3\r\n",
            Response::Positive(SingleLine {
                code: vec!["a".into(), "b".into()],
                comment: "ABC! 1 < 3".into(),
            }),
        ),
        (
            b"-ERR\r\n",
            Response::Negative(SingleLine {
                code: vec![],
                comment: "".into(),
            }),
        ),
        (
            b"-Err \r\n",
            Response::Negative(SingleLine {
                code: vec![],
                comment: "".into(),
            }),
        ),
        (
            b"-ERR ABC!\r\n",
            Response::Negative(SingleLine {
                code: vec![],
                comment: "ABC!".into(),
            }),
        ),
        (
            b"-eRr [a] ABC!\r\n",
            Response::Negative(SingleLine {
                code: vec!["a".into()],
                comment: "ABC!".into(),
            }),
        ),
        (
            b"-eRR [a/b] ABC! 1 < 3\r\n",
            Response::Negative(SingleLine {
                code: vec!["a".into(), "b".into()],
                comment: "ABC! 1 < 3".into(),
            }),
        ),
    ];

    for (test, expected) in tests {
        let (rem, got) = single_line(test, head, false).unwrap();
        assert!(rem.is_empty());
        assert_eq!(*expected, got);
    }
}

#[test]
fn test_multi_lines() {
    let tests: &[(&[u8], Vec<String>)] = &[
        (b"+OK\r\n.\r\n", vec![]),
        (b"+OK\r\n..\r\n.\r\n", vec!["..".into()]),
        (
            b"+OK\r\n...\r\n..\r\n.\r\n",
            vec!["...".into(), "..".into()],
        ),
        (b"+OK\r\n\r\n.\r\n", vec!["".into()]),
        (b"+OK\r\n \r\n.\r\n", vec![" ".into()]),
    ];

    for (test, expected) in tests {
        let (rem, got) = multi_line(test, dot_stuffed).unwrap();
        assert!(rem.is_empty());
        assert_eq!(*expected, got.unwrap().body);
    }
}

fn capability_lines() -> Vec<(&'static [u8], Capability)> {
    vec![
        (b"TOP\r\n", Capability::Top),
        (b"USER\r\n", Capability::User),
        (
            b"SASL AUTH PLAIN\r\n",
            Capability::Sasl {
                mechanisms: vec!["AUTH".into(), "PLAIN".into()],
            },
        ),
        (b"RESP-CODES\r\n", Capability::RespCodes),
        (
            b"LOGIN-DELAY 0\r\n",
            Capability::LoginDelay {
                minimum_seconds: 0,
                per_user: false,
            },
        ),
        (
            b"LOGIN-DELAY 4294967295 USER\r\n",
            Capability::LoginDelay {
                minimum_seconds: u32::MAX,
                per_user: true,
            },
        ),
        (
            b"LOGIN-DELAY 0\r\n",
            Capability::LoginDelay {
                minimum_seconds: 0,
                per_user: false,
            },
        ),
        (
            b"LOGIN-DELAY 4294967295 USER\r\n",
            Capability::LoginDelay {
                minimum_seconds: u32::MAX,
                per_user: true,
            },
        ),
        (b"PIPELINING\r\n", Capability::Pipelining),
        (
            b"EXPIRE 0\r\n",
            Capability::Expire {
                policy: ExpirePolicy::MinimumDays(0),
                per_user: false,
            },
        ),
        (
            b"EXPIRE 4294967295\r\n",
            Capability::Expire {
                policy: ExpirePolicy::MinimumDays(u32::MAX),
                per_user: false,
            },
        ),
        (
            b"EXPIRE NEVER\r\n",
            Capability::Expire {
                policy: ExpirePolicy::Never,
                per_user: false,
            },
        ),
        (
            b"EXPIRE 0 USER\r\n",
            Capability::Expire {
                policy: ExpirePolicy::MinimumDays(0),
                per_user: true,
            },
        ),
        (
            b"EXPIRE 4294967295 USER\r\n",
            Capability::Expire {
                policy: ExpirePolicy::MinimumDays(u32::MAX),
                per_user: true,
            },
        ),
        (
            b"EXPIRE NEVER USER\r\n",
            Capability::Expire {
                policy: ExpirePolicy::Never,
                per_user: true,
            },
        ),
        (b"UIDL\r\n", Capability::Uidl),
        (
            b"IMPLEMENTATION fake\r\n",
            Capability::Implementation {
                text: "fake".into(),
            },
        ),
        (b"STLS\r\n", Capability::Stls),
        (b"AUTH-RESP-CODE\r\n", Capability::AuthRespCode),
        (b"LANG\r\n", Capability::Lang),
        (
            b"UTF8\r\n",
            Capability::Utf8 {
                in_credentials: false,
            },
        ),
        (
            b"UTF8 USER\r\n",
            Capability::Utf8 {
                in_credentials: true,
            },
        ),
        (
            b"X-SPECIAL something different\r\n",
            Capability::Other {
                tag: "X-SPECIAL".into(),
                parameters: vec!["something".into(), "different".into()],
            },
        ),
    ]
}

#[test]
fn test_capa_resp_lines() {
    for (test, expected) in capability_lines() {
        // Parse ...
        let (rem, got) = capability(test).unwrap();
        assert!(rem.is_empty());
        assert_eq!(expected, got);

        // Serialize...
        let serialized = got.to_string() + "\r\n";
        assert_eq!(serialized.as_bytes(), test);
    }
}

#[test]
fn canonical_capabilities_are_read_back() {
    let mut capabilities: Vec<Capability> =
        capability_lines().into_iter().map(|(_, c)| c).collect();
    capabilities.push(Capability::Sasl { mechanisms: vec![] });
    capabilities.push(Capability::Other {
        tag: "X-SPECIAL".into(),
        parameters: vec![],
    });
    capabilities.push(Capability::Other {
        tag: "TOPX".into(),
        parameters: vec![],
    });
    capabilities.push(Capability::Implementation { text: "".into() });
    capabilities.push(Capability::Implementation {
        text: "two words".into(),
    });
    capabilities.push(Capability::Other {
        tag: "EXPIRE".into(),
        parameters: vec!["SOON".into()],
    });
    capabilities.push(Capability::Other {
        tag: "LOGIN-DELAY".into(),
        parameters: vec!["4294967296".into()],
    });
    capabilities.push(Capability::Other {
        tag: "TOP".into(),
        parameters: vec!["x".into()],
    });
    capabilities.push(Capability::Other {
        tag: "UTF8".into(),
        parameters: vec!["USERS".into()],
    });
    for c in capabilities {
        let line = c.to_string() + "\r\n";
        let (rem, got) = capability(line.as_bytes()).unwrap();
        assert!(rem.is_empty(), "{:?}", line);
        assert_eq!(got, c);
    }
}

#[test]
fn other_capabilities_are_not_read_back() {
    // A mechanism with a space in it is read as two.
    let line = Capability::Sasl {
        mechanisms: vec!["PLAIN LOGIN".into()],
    }
    .to_string()
        + "\r\n";
    assert_eq!(
        capability(line.as_bytes()).unwrap().1,
        Capability::Sasl {
            mechanisms: vec!["PLAIN".into(), "LOGIN".into()]
        }
    );

    // A tag that is known is read as the known capability.
    let line = Capability::Other {
        tag: "TOP".into(),
        parameters: vec![],
    }
    .to_string()
        + "\r\n";
    assert_eq!(capability(line.as_bytes()).unwrap().1, Capability::Top);
    let line = Capability::Other {
        tag: "SASL".into(),
        parameters: vec!["PLAIN".into()],
    }
    .to_string()
        + "\r\n";
    assert_eq!(
        capability(line.as_bytes()).unwrap().1,
        Capability::Sasl {
            mechanisms: vec!["PLAIN".into()]
        }
    );
    let line = Capability::Other {
        tag: "expire".into(),
        parameters: vec!["never".into(), "user".into()],
    }
    .to_string()
        + "\r\n";
    assert_eq!(
        capability(line.as_bytes()).unwrap().1,
        Capability::Expire {
            policy: ExpirePolicy::Never,
            per_user: true
        }
    );
}

#[test]
fn capabilities_in_any_case() {
    assert_eq!(capability(b"top\r\n").unwrap().1, Capability::Top);
    assert_eq!(
        capability(b"Login-Delay 900 user\r\n").unwrap().1,
        Capability::LoginDelay {
            minimum_seconds: 900,
            per_user: true
        }
    );
    assert_eq!(
        capability(b"sasl\r\n").unwrap().1,
        Capability::Sasl { mechanisms: vec![] }
    );
    assert_eq!(
        capability(b"TOPX\r\n").unwrap().1,
        Capability::Other {
            tag: "TOPX".into(),
            parameters: vec![]
        }
    );
    assert_eq!(
        capability(b"EXPIRE NEVERMORE\r\n").unwrap().1,
        Capability::Other {
            tag: "EXPIRE".into(),
            parameters: vec!["NEVERMORE".into()]
        }
    );
}

#[test]
fn capability_errors() {
    assert_eq!(capability(b".\r\n").unwrap_err(), ParseError::Syntax);
    assert_eq!(capability(b"TOP \r\n").unwrap_err(), ParseError::Syntax);
    assert_eq!(capability(b"TOP").unwrap_err(), ParseError::Incomplete);
    assert_eq!(capability(b"US").unwrap_err(), ParseError::Incomplete);
    assert_eq!(capability(b"X").unwrap_err(), ParseError::Incomplete);
    assert_eq!(capability(b"").unwrap_err(), ParseError::Incomplete);
    assert_eq!(
        capability(b"SASL PLAIN").unwrap_err(),
        ParseError::Incomplete
    );
    assert_eq!(
        capability(b"IMPLEMENTATION \xff\r\n").unwrap_err(),
        ParseError::Syntax
    );
}

#[test]
fn multi_line_with_scan_listings() {
    let (rem, got) = multi_line(b"+OK\r\n1 120\r\n2 200\r\n.\r\n", scan_listing).unwrap();
    assert!(rem.is_empty());
    assert_eq!(
        got,
        Response::Positive(MultiLine {
            head: SingleLine {
                code: vec![],
                comment: "".into()
            },
            body: vec![
                ScanListing {
                    message_id: 1,
                    message_size: 120
                },
                ScanListing {
                    message_id: 2,
                    message_size: 200
                }
            ]
        })
    );
    let (rem, same) = response_list_all(b"+OK\r\n1 120\r\n2 200\r\n.\r\n").unwrap();
    assert!(rem.is_empty());
    assert_eq!(got, same);
}

#[test]
fn multi_line_stops_after_the_terminator() {
    let (rem, got) = response_retr(b"+OK\r\nline\r\n.\r\n+OK next\r\n").unwrap();
    assert_eq!(rem, b"+OK next\r\n");
    assert_eq!(got.unwrap().body, vec!["line".to_string()]);

    let (rem, got) = response_retr(b"+OK\n.\n.\n").unwrap();
    assert_eq!(rem, b".\n");
    assert!(got.unwrap().body.is_empty());
}

#[test]
fn multi_line_negative_has_no_body() {
    let (rem, got) = response_retr(b"-ERR no such message\r\n1 2\r\n.\r\n").unwrap();
    assert_eq!(rem, b"1 2\r\n.\r\n");
    assert_eq!(
        got,
        Response::Negative(SingleLine {
            code: vec![],
            comment: "no such message".into()
        })
    );
}

#[test]
fn dot_stuffed_lines_keep_their_dots() {
    let (rest, line) = dot_stuffed(b"..two\r\n").unwrap();
    assert_eq!(line, "..two");
    assert_eq!(rest, b"\r\n");
    assert_eq!(dot_stuffed(b".\r\n").unwrap_err(), ParseError::Syntax);
    assert_eq!(dot_stuffed(b".\n").unwrap_err(), ParseError::Syntax);
    assert_eq!(dot_stuffed(b".").unwrap_err(), ParseError::Incomplete);
    assert_eq!(dot_stuffed(b"a\rb").unwrap_err(), ParseError::Syntax);
    assert_eq!(dot_stuffed(b"\xff\r\n").unwrap_err(), ParseError::Syntax);
}

#[test]
fn multi_line_errors() {
    assert_eq!(
        response_list_all(b"+OK\r\n1 120\r\nx\r\n.\r\n").unwrap_err(),
        ParseError::Syntax
    );
    assert_eq!(
        response_list_all(b"+OK\r\n1 120\r\n").unwrap_err(),
        ParseError::Incomplete
    );
    assert_eq!(
        response_list_all(b"+OK\r\n1 120\r\n.").unwrap_err(),
        ParseError::Incomplete
    );
    assert_eq!(
        response_list_all(b"+OK\r\n1 120\r\n.\r").unwrap_err(),
        ParseError::Incomplete
    );
    assert_eq!(
        response_retr(b"+OK\r\n.x\r\n").unwrap_err(),
        ParseError::Incomplete
    );
}

#[test]
fn truncated_multi_line_is_incomplete() {
    let input: &[u8] = b"+OK\r\n1 120\r\n2 200\r\n.\r\n";
    for cut in 0..input.len() - 1 {
        assert_eq!(
            response_list_all(&input[..cut]).unwrap_err(),
            ParseError::Incomplete,
            "{:?}",
            &input[..cut]
        );
    }
}

#[test]
fn a_capability_listing_has_one_line_ending_for_each_line() {
    let (rem, got) = response_capa(b"+OK\r\nTOP\r\nUSER\r\n.\r\n").unwrap();
    assert!(rem.is_empty());
    assert_eq!(
        got,
        Response::Positive(MultiLine {
            head: SingleLine {
                code: vec![],
                comment: "".into()
            },
            body: vec![Capability::Top, Capability::User]
        })
    );
    let (rem, got) = response_capa(
        b"+OK Capability list follows\r\nTOP\r\nSASL CRAM-MD5 KERBEROS_V4\r\nSASL\r\n\
LOGIN-DELAY 900\r\nEXPIRE 60 USER\r\nIMPLEMENTATION Shlemazle-Plotz-v302\r\nX-NEW\r\n.\r\nnext",
    )
    .unwrap();
    assert_eq!(rem, b"next");
    assert_eq!(
        got.unwrap().body,
        vec![
            Capability::Top,
            Capability::Sasl {
                mechanisms: vec!["CRAM-MD5".into(), "KERBEROS_V4".into()]
            },
            Capability::Sasl { mechanisms: vec![] },
            Capability::LoginDelay {
                minimum_seconds: 900,
                per_user: false
            },
            Capability::Expire {
                policy: ExpirePolicy::MinimumDays(60),
                per_user: true
            },
            Capability::Implementation {
                text: "Shlemazle-Plotz-v302".into()
            },
            Capability::Other {
                tag: "X-NEW".into(),
                parameters: vec![]
            },
        ]
    );
    // An empty line is no capability.
    assert_eq!(
        response_capa(b"+OK\r\nTOP\r\n\r\nUSER\r\n\r\n.\r\n").unwrap_err(),
        ParseError::Syntax
    );
    assert_eq!(
        response_capa(b"+OK\r\nTOP\r\nUSER\r\n").unwrap_err(),
        ParseError::Incomplete
    );
    let (rem, got) = response_capa(b"+OK Capability list follows\r\n.\r\n").unwrap();
    assert!(rem.is_empty());
    assert!(got.unwrap().body.is_empty());
    assert_eq!(
        response_capa(b"-ERR no capabilities\r\nTOP\r\n").unwrap(),
        (
            &b"TOP\r\n"[..],
            Response::Negative(SingleLine {
                code: vec![],
                comment: "no capabilities".into()
            })
        )
    );
}

fn any_line(input: &[u8]) -> Result<(&[u8], String), ParseError> {
    line_text(input).map(|(rest, line)| (rest, line.to_owned()))
}

#[test]
fn the_body_ends_at_the_lone_dot_whatever_the_line_parser() {
    // `any_line` would read a lone `.` as a line.
    assert_eq!(any_line(b".\r\n").unwrap().1, ".");
    let (rem, got) = multi_line(b"+OK\r\n.\r\n", any_line).unwrap();
    assert!(rem.is_empty());
    assert!(got.unwrap().body.is_empty());

    let (rem, got) = multi_line(b"+OK\r\none\r\n..\r\n. \r\n.\r\n.\r\n", any_line).unwrap();
    assert_eq!(rem, b".\r\n");
    assert_eq!(
        got.unwrap().body,
        vec!["one".to_string(), "..".to_string(), ". ".to_string()]
    );

    let (rem, got) = listing(b"+OK\nTOP\n.\nrest", capability, true).unwrap();
    assert_eq!(rem, b"rest");
    assert_eq!(got.unwrap().body, vec![Capability::Top]);
}

#[test]
fn a_line_that_the_line_parser_refuses_is_a_syntax_error() {
    assert_eq!(
        multi_line(b"+OK\r\n1 120\r\nnot a listing\r\n.\r\n", scan_listing).unwrap_err(),
        ParseError::Syntax
    );
    assert_eq!(
        multi_line(b"+OK\r\n1 120 \r\n.\r\n", scan_listing).unwrap_err(),
        ParseError::Syntax
    );
}

#[test]
fn a_required_payload_follows_one_space() {
    assert_eq!(
        response_stat(b"+OK 2 320\r\n").unwrap().1,
        Response::Positive(DropListing {
            message_count: 2,
            maildrop_size: 320
        })
    );
    assert_eq!(
        response_stat(b"+OK2 320\r\n").unwrap_err(),
        ParseError::Syntax
    );
    assert_eq!(response_stat(b"+OK\r\n").unwrap_err(), ParseError::Syntax);
    assert_eq!(
        response_stat(b"+OK 2 320 messages\r\n").unwrap_err(),
        ParseError::Syntax
    );
    assert_eq!(
        single_line(b"+OK1 2\r\n", drop_listing, false).unwrap().1,
        Response::Positive(DropListing {
            message_count: 1,
            maildrop_size: 2
        })
    );
}

#[test]
fn a_negative_response_never_holds_a_payload() {
    let inputs: [&[u8]; 4] = [
        b"-ERR\r\n",
        b"-ERR no such message\r\n",
        b"-ERR [IN-USE] maildrop locked\r\n",
        b"-ERR 2 320\r\n",
    ];
    for input in inputs {
        let with = single_line(input, drop_listing, true).unwrap();
        let without = single_line(input, drop_listing, false).unwrap();
        assert_eq!(with, without);
        let (rem, plain) = single_line(input, head, false).unwrap();
        assert!(rem.is_empty());
        match (with.1, plain) {
            (Response::Negative(a), Response::Negative(b)) => assert_eq!(a, b),
            _ => panic!("a negative response was read as positive"),
        }
    }
    assert_eq!(
        response_stat(b"-ERR 2 320\r\n").unwrap().1,
        Response::Negative(SingleLine {
            code: vec![],
            comment: "2 320".into()
        })
    );
}

#[test]
fn status_line_errors() {
    assert_eq!(response_user(b"OK\r\n").unwrap_err(), ParseError::Syntax);
    assert_eq!(response_user(b"+NO\r\n").unwrap_err(), ParseError::Syntax);
    assert_eq!(response_user(b"+OK").unwrap_err(), ParseError::Incomplete);
    assert_eq!(response_user(b"-E").unwrap_err(), ParseError::Incomplete);
    assert_eq!(response_user(b"").unwrap_err(), ParseError::Incomplete);
    assert_eq!(
        response_user(b"+OK a[b\r\n").unwrap_err(),
        ParseError::Syntax
    );
    assert_eq!(
        response_user(b"+OK [a/] x\r\n").unwrap_err(),
        ParseError::Syntax
    );
    assert_eq!(
        response_user(b"+OK [a]x\r\n").unwrap_err(),
        ParseError::Syntax
    );
    assert_eq!(
        response_user(b"+OK hello").unwrap_err(),
        ParseError::Incomplete
    );
}

#[test]
fn response_codes() {
    let (rest, code) = resp_code(b"[SYS/TEMP] ").unwrap();
    assert_eq!(code, vec!["SYS".to_string(), "TEMP".to_string()]);
    assert_eq!(rest, b" ");
    assert_eq!(resp_code(b"[]").unwrap_err(), ParseError::Syntax);
    assert_eq!(resp_code(b"[a").unwrap_err(), ParseError::Incomplete);
    assert_eq!(resp_code(b"[a/").unwrap_err(), ParseError::Incomplete);
    assert_eq!(resp_code(b"a]").unwrap_err(), ParseError::Syntax);
    let (rest, stamp) = timestamp(b"<1896.697170952@dbc.mtview.ca.us> ").unwrap();
    assert_eq!(stamp, "1896.697170952@dbc.mtview.ca.us");
    assert_eq!(rest, b" ");
    assert_eq!(timestamp(b"<abc").unwrap_err(), ParseError::Incomplete);
}

#[test]
fn listings() {
    assert_eq!(
        drop_listing(b"2 320\r\n").unwrap(),
        (
            &b"\r\n"[..],
            DropListing {
                message_count: 2,
                maildrop_size: 320
            }
        )
    );
    assert_eq!(
        unique_id_listing(b"1 whqtswO00WBw418f9t5JxYwZ\r\n").unwrap().1,
        UniqueIdListing {
            message_id: 1,
            message_uid: "whqtswO00WBw418f9t5JxYwZ".into()
        }
    );
    // A unique id is cut after seventy characters.
    let mut long = b"1 ".to_vec();
    long.extend(std::iter::repeat(b'x').take(71));
    long.extend_from_slice(b"\r\n");
    let (rest, got) = unique_id_listing(&long).unwrap();
    assert_eq!(got.message_uid.len(), 70);
    assert_eq!(rest, b"x\r\n");
    assert_eq!(
        response_uidl(&{
            let mut line = b"+OK ".to_vec();
            line.extend_from_slice(&long);
            line
        })
        .unwrap_err(),
        ParseError::Syntax
    );
    assert_eq!(
        unique_id_listing(b"1 \r\n").unwrap_err(),
        ParseError::Syntax
    );
    assert_eq!(
        language_listing(b"en-boont English Boontling dialect\r\n")
            .unwrap()
            .1,
        LanguageListing {
            tag: "en-boont".into(),
            description: "English Boontling dialect".into()
        }
    );
    assert_eq!(
        language_listing(b"1 English\r\n").unwrap_err(),
        ParseError::Syntax
    );
}
