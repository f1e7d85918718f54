use pop3_codec::parse::command::{auth_type, base64};
use pop3_codec::parse::token::{number, ParseError};
use pop3_codec::parse::{
    command, greeting, response_apop, response_auth_all, response_dele, response_lang,
    response_lang_all, response_list, response_list_all, response_noop, response_pass,
    response_quit, response_retr, response_rset, response_stat, response_stls, response_top,
    response_uidl, response_uidl_all, response_user, response_utf8,
};
use pop3_codec::types::command::{Command, Language};

#[test]
fn test_command() {
    // The commands of the client in the examples of RFC 1939 and RFC 6856.
    let commands = "\
QUIT
STAT
LIST
LIST 2
LIST 3
RETR 1
DELE 1
DELE 2
NOOP
RSET
QUIT
QUIT
TOP 1 10
TOP 100 3
UIDL
UIDL 2
UIDL 3
USER frated
USER mrose
USER mrose
PASS secret
USER mrose
PASS secret
APOP mrose c4c9334bac560ecc979e58001b3e22fb
APOP mrose c4c9334bac560ecc979e58001b3e22fb
STAT
LIST
RETR 1
DELE 1
RETR 2
DELE 2
QUIT
LANG MUL
LANG
LANG
LANG es
LANG uga
LANG sv
LANG *
UTF8
";

    for cmd in commands.lines() {
        let cmd = cmd.to_string() + "\r\n";
        println!("C: {}", cmd);
        let (rem, cmd) = command(cmd.as_bytes()).unwrap();
        assert!(rem.is_empty());
        println!("{:?}\n", cmd);
    }
}

#[test]
fn test_example_session() {
    let client = b"\
APOP mrose c4c9334bac560ecc979e58001b3e22fb
STAT
LIST
RETR 1
DELE 1
RETR 2
DELE 2
QUIT
";

    let server = b"\
+OK POP3 server ready <1896.697170952@dbc.mtview.ca.us>
+OK mrose's maildrop has 2 messages (320 octets)
+OK 2 320
+OK 2 messages (320 octets)
1 120
2 200
.
+OK 120 octets
<the POP3 server sends message 1>
.
+OK message 1 deleted
+OK 200 octets
<the POP3 server sends message 2>
.
+OK message 2 deleted
+OK dewey POP3 server signing off (maildrop empty)
";

    let mut rem_client: &[u8] = client.as_ref();
    let mut rem_server: &[u8] = server.as_ref();

    let (rem, greeting) = greeting(rem_server).unwrap();
    println!("{:#?}", greeting);
    rem_server = rem;

    while !rem_client.is_empty() {
        let (rem, cmd) = command(rem_client).unwrap();
        println!("{:#?}", cmd);
        rem_client = rem;

        match cmd {
            Command::User(_) => {
                let (rem, resp) = response_user(rem_server).unwrap();
                println!("{:#?}", resp);
                rem_server = rem;
            }
            Command::Pass(_) => {
                let (rem, resp) = response_pass(rem_server).unwrap();
                println!("{:#?}", resp);
                rem_server = rem;
            }
            Command::Stat => {
                let (rem, resp) = response_stat(rem_server).unwrap();
                println!("{:#?}", resp);
                rem_server = rem;
            }
            Command::ListAll => {
                let (rem, resp) = response_list_all(rem_server).unwrap();
                println!("{:#?}", resp);
                rem_server = rem;
            }
            Command::List { .. } => {
                let (rem, resp) = response_list(rem_server).unwrap();
                println!("{:#?}", resp);
                rem_server = rem;
            }
            Command::Retr { .. } => {
                let (rem, resp) = response_retr(rem_server).unwrap();
                println!("{:#?}", resp);
                rem_server = rem;
            }
            Command::Dele { .. } => {
                let (rem, resp) = response_dele(rem_server).unwrap();
                println!("{:#?}", resp);
                rem_server = rem;
            }
            Command::Noop => {
                let (rem, resp) = response_noop(rem_server).unwrap();
                println!("{:#?}", resp);
                rem_server = rem;
            }
            Command::Rset => {
                let (rem, resp) = response_rset(rem_server).unwrap();
                println!("{:#?}", resp);
                rem_server = rem;
            }
            Command::Quit => {
                let (rem, resp) = response_quit(rem_server).unwrap();
                println!("{:#?}", resp);
                rem_server = rem;
            }
            Command::Apop { .. } => {
                let (rem, resp) = response_apop(rem_server).unwrap();
                println!("{:#?}", resp);
                rem_server = rem;
            }
            Command::Top { .. } => {
                let (rem, resp) = response_top(rem_server).unwrap();
                println!("{:#?}", resp);
                rem_server = rem;
            }
            Command::UidlAll => {
                let (rem, resp) = response_uidl_all(rem_server).unwrap();
                println!("{:#?}", resp);
                rem_server = rem;
            }
            Command::Uidl { .. } => {
                let (rem, resp) = response_uidl(rem_server).unwrap();
                println!("{:#?}", resp);
                rem_server = rem;
            }
            Command::Capa => {
                let (rem, resp) = response_user(rem_server).unwrap();
                println!("{:#?}", resp);
                rem_server = rem;
            }
            Command::Stls => {
                let (rem, resp) = response_stls(rem_server).unwrap();
                println!("{:#?}", resp);
                rem_server = rem;
            }
            Command::AuthAll => {
                let (rem, resp) = response_auth_all(rem_server).unwrap();
                println!("{:#?}", resp);
                rem_server = rem;
            }
            Command::Auth { .. } => {
                panic!("the session holds no AUTH with a mechanism")
            }
            Command::Utf8 => {
                let (rem, resp) = response_utf8(rem_server).unwrap();
                println!("{:#?}", resp);
                rem_server = rem;
            }
            Command::LangAll => {
                let (rem, resp) = response_lang_all(rem_server).unwrap();
                println!("{:#?}", resp);
                rem_server = rem;
            }
            Command::Lang { .. } => {
                let (rem, resp) = response_lang(rem_server).unwrap();
                println!("{:#?}", resp);
                rem_server = rem;
            }
        }
    }
    assert!(rem_server.is_empty());
}

fn parsed(input: &[u8]) -> Command {
    let (rem, cmd) = command(input).unwrap();
    assert!(rem.is_empty(), "{:?}", input);
    cmd
}

#[test]
fn commands_with_an_optional_operand() {
    assert_eq!(parsed(b"LIST\r\n"), Command::ListAll);
    assert_eq!(parsed(b"LIST 2\r\n"), Command::List { msg: 2 });
    assert_eq!(parsed(b"UIDL\r\n"), Command::UidlAll);
    assert_eq!(parsed(b"UIDL 7\r\n"), Command::Uidl { msg: 7 });
    assert_eq!(parsed(b"LANG\r\n"), Command::LangAll);
    assert_eq!(
        parsed(b"LANG *\r\n"),
        Command::Lang {
            lang_or_wild: Language::Wild
        }
    );
    assert_eq!(
        parsed(b"LANG en-boont\r\n"),
        Command::Lang {
            lang_or_wild: Language::Lang("en-boont".into())
        }
    );
    assert_eq!(parsed(b"AUTH\r\n"), Command::AuthAll);
}

#[test]
fn every_verb() {
    assert_eq!(parsed(b"USER mrose\r\n"), Command::User("mrose".into()));
    assert_eq!(
        parsed(b"USER two words\r\n"),
        Command::User("two words".into())
    );
    assert_eq!(parsed(b"PASS a b \r\n"), Command::Pass("a b ".into()));
    assert_eq!(parsed(b"USER \r\n"), Command::User("".into()));
    assert_eq!(parsed(b"STAT\r\n"), Command::Stat);
    assert_eq!(parsed(b"RETR 1\r\n"), Command::Retr { msg: 1 });
    assert_eq!(parsed(b"DELE 12\r\n"), Command::Dele { msg: 12 });
    assert_eq!(parsed(b"NOOP\r\n"), Command::Noop);
    assert_eq!(parsed(b"RSET\r\n"), Command::Rset);
    assert_eq!(parsed(b"QUIT\r\n"), Command::Quit);
    assert_eq!(
        parsed(b"APOP mrose c4c9334bac560ecc979e58001b3e22fb\r\n"),
        Command::Apop {
            name: "mrose".into(),
            digest: "c4c9334bac560ecc979e58001b3e22fb".into()
        }
    );
    assert_eq!(parsed(b"TOP 1 10\r\n"), Command::Top { msg: 1, n: 10 });
    assert_eq!(parsed(b"CAPA\r\n"), Command::Capa);
    assert_eq!(parsed(b"STLS\r\n"), Command::Stls);
    assert_eq!(parsed(b"UTF8\r\n"), Command::Utf8);
}

#[test]
fn keywords_in_any_case() {
    assert_eq!(parsed(b"quit\r\n"), Command::Quit);
    assert_eq!(parsed(b"Retr 3\r\n"), Command::Retr { msg: 3 });
    assert_eq!(parsed(b"uSeR Bob\r\n"), Command::User("Bob".into()));
}

#[test]
fn a_line_may_end_in_a_bare_line_feed() {
    assert_eq!(parsed(b"NOOP\n"), Command::Noop);
    assert_eq!(parsed(b"USER a\n"), Command::User("a".into()));
}

#[test]
fn auth_with_a_mechanism() {
    assert_eq!(
        parsed(b"AUTH PLAIN\r\n"),
        Command::Auth {
            mechanism: "PLAIN".into(),
            initial_response: None
        }
    );
    assert_eq!(
        parsed(b"AUTH CRAM-MD5 dGVzdA==\r\n"),
        Command::Auth {
            mechanism: "CRAM-MD5".into(),
            initial_response: Some("dGVzdA==".into())
        }
    );
    assert_eq!(
        parsed(b"AUTH PLAIN =\r\n"),
        Command::Auth {
            mechanism: "PLAIN".into(),
            initial_response: Some("=".into())
        }
    );
    assert_eq!(
        parsed(b"AUTH PLAIN \r\n"),
        Command::Auth {
            mechanism: "PLAIN".into(),
            initial_response: Some("".into())
        }
    );
    assert_eq!(command(b"AUTH \r\n").unwrap_err(), ParseError::Syntax);
    assert_eq!(
        command(b"AUTH PLAIN a=b\r\n").unwrap_err(),
        ParseError::Syntax
    );
}

#[test]
fn apop_names_end_at_the_first_space() {
    assert_eq!(
        parsed(b"APOP  d\r\n"),
        Command::Apop {
            name: "".into(),
            digest: "d".into()
        }
    );
    assert_eq!(
        parsed(b"APOP a b c\r\n"),
        Command::Apop {
            name: "a".into(),
            digest: "b c".into()
        }
    );
}

#[test]
fn what_follows_the_command_is_left() {
    let (rem, cmd) = command(b"STAT\r\nLIST\r\n").unwrap();
    assert_eq!(cmd, Command::Stat);
    assert_eq!(rem, b"LIST\r\n");
}

#[test]
fn truncated_commands_are_incomplete() {
    let inputs: [&[u8]; 8] = [
        b"LIST\r\n",
        b"LIST 2\r\n",
        b"UIDL\r\n",
        b"LANG *\r\n",
        b"USER mrose\r\n",
        b"APOP mrose c4c9334bac560ecc979e58001b3e22fb\r\n",
        b"AUTH PLAIN dGVzdA==\r\n",
        b"TOP 1 10\r\n",
    ];
    for input in inputs {
        for cut in 0..input.len() - 1 {
            assert_eq!(
                command(&input[..cut]).unwrap_err(),
                ParseError::Incomplete,
                "{:?}",
                &input[..cut]
            );
        }
    }
}

#[test]
fn unknown_keywords_are_syntax_errors() {
    assert_eq!(command(b"HELO\r\n").unwrap_err(), ParseError::Syntax);
    assert_eq!(command(b"XYZZY 1\r\n").unwrap_err(), ParseError::Syntax);
    assert_eq!(command(b"\r\n").unwrap_err(), ParseError::Syntax);
    assert_eq!(command(b"STATS\r\n").unwrap_err(), ParseError::Syntax);
}

#[test]
fn malformed_operands_are_syntax_errors() {
    assert_eq!(command(b"RETR\r\n").unwrap_err(), ParseError::Syntax);
    assert_eq!(command(b"RETR x\r\n").unwrap_err(), ParseError::Syntax);
    assert_eq!(command(b"TOP 1\r\n").unwrap_err(), ParseError::Syntax);
    assert_eq!(command(b"LIST 1 2\r\n").unwrap_err(), ParseError::Syntax);
    assert_eq!(command(b"LIST  1\r\n").unwrap_err(), ParseError::Syntax);
    assert_eq!(command(b"STAT \r\n").unwrap_err(), ParseError::Syntax);
    assert_eq!(command(b"USER a\rb\r\n").unwrap_err(), ParseError::Syntax);
    assert_eq!(command(b"LANG \r\n").unwrap_err(), ParseError::Syntax);
    assert_eq!(
        command(b"LANG abcdefghi\r\n").unwrap_err(),
        ParseError::Syntax
    );
}

#[test]
fn text_that_is_not_utf8_is_a_syntax_error() {
    assert_eq!(command(b"USER \xff\r\n").unwrap_err(), ParseError::Syntax);
    assert_eq!(
        command(b"PASS \xc3\x28\r\n").unwrap_err(),
        ParseError::Syntax
    );
    assert_eq!(
        parsed(b"USER zo\xc3\xab\r\n"),
        Command::User("zo\u{eb}".into())
    );
}

#[test]
fn numbers_that_do_not_fit_are_syntax_errors() {
    assert_eq!(
        parsed(b"RETR 4294967295\r\n"),
        Command::Retr { msg: 4294967295 }
    );
    assert_eq!(
        command(b"RETR 4294967296\r\n").unwrap_err(),
        ParseError::Syntax
    );
    assert_eq!(
        command(b"RETR 99999999999999999999999999\r\n").unwrap_err(),
        ParseError::Syntax
    );
    assert_eq!(parsed(b"RETR 007\r\n"), Command::Retr { msg: 7 });
    assert_eq!(
        parsed(b"RETR 00000000000000000000000001\r\n"),
        Command::Retr { msg: 1 }
    );
    // A number that does not fit fails the number, not the line: LIST then
    // stands without an operand, and the line does not end after it.
    assert_eq!(
        command(b"LIST 4294967296\r\n").unwrap_err(),
        ParseError::Syntax
    );
    let (rest, value) = number(b"4294967295 ").unwrap();
    assert_eq!(value, u32::MAX);
    assert_eq!(rest, b" ");
}

#[test]
fn tokens_of_auth() {
    let (rest, mechanism) = auth_type(b"X-OAUTH_2 ").unwrap();
    assert_eq!(mechanism, "X-OAUTH_2");
    assert_eq!(rest, b" ");
    assert_eq!(auth_type(b" PLAIN").unwrap_err(), ParseError::Syntax);
    assert_eq!(auth_type(b"PLAIN").unwrap_err(), ParseError::Incomplete);

    let (rest, token) = base64(b"QUJD+/==\r\n").unwrap();
    assert_eq!(token, "QUJD+/==");
    assert_eq!(rest, b"\r\n");
    let (rest, token) = base64(b"QUJD===").unwrap();
    assert_eq!(token, "QUJD==");
    assert_eq!(rest, b"=");
    assert_eq!(base64(b"QUJD=").unwrap_err(), ParseError::Incomplete);
    assert_eq!(base64(b"QUJD").unwrap_err(), ParseError::Incomplete);
}

fn round_trip(cmd: Command) {
    let bytes = cmd.serialize();
    let (rem, got) = command(&bytes).unwrap();
    assert!(rem.is_empty());
    assert_eq!(got, cmd);
}

#[test]
fn canonical_commands_are_read_back() {
    round_trip(Command::User("mrose".into()));
    round_trip(Command::User("".into()));
    round_trip(Command::User("with spaces and \u{1F600}".into()));
    round_trip(Command::Pass("tan staaf".into()));
    round_trip(Command::Stat);
    round_trip(Command::ListAll);
    round_trip(Command::List { msg: 0 });
    round_trip(Command::List { msg: 4294967295 });
    round_trip(Command::Retr { msg: 17 });
    round_trip(Command::Dele { msg: 100 });
    round_trip(Command::Noop);
    round_trip(Command::Rset);
    round_trip(Command::Quit);
    round_trip(Command::Apop {
        name: "mrose".into(),
        digest: "c4c9334bac560ecc979e58001b3e22fb".into(),
    });
    round_trip(Command::Apop {
        name: "".into(),
        digest: "two words".into(),
    });
    round_trip(Command::Top { msg: 1, n: 0 });
    round_trip(Command::UidlAll);
    round_trip(Command::Uidl { msg: 3 });
    round_trip(Command::Capa);
    round_trip(Command::Stls);
    round_trip(Command::AuthAll);
    round_trip(Command::Auth {
        mechanism: "PLAIN".into(),
        initial_response: None,
    });
    round_trip(Command::Auth {
        mechanism: "PLAIN".into(),
        initial_response: Some("".into()),
    });
    round_trip(Command::Auth {
        mechanism: "CRAM-MD5".into(),
        initial_response: Some("AGFsaWNlAHNlY3JldA==".into()),
    });
    round_trip(Command::Auth {
        mechanism: "X_1".into(),
        initial_response: Some("=".into()),
    });
    round_trip(Command::Utf8);
    round_trip(Command::LangAll);
    round_trip(Command::Lang {
        lang_or_wild: Language::Wild,
    });
    round_trip(Command::Lang {
        lang_or_wild: Language::Lang("i-default".into()),
    });
    round_trip(Command::Lang {
        lang_or_wild: Language::Lang("abcdefgh-12345678-x".into()),
    });
}

#[test]
fn other_commands_are_not_read_back() {
    let bytes = Command::User("a\nb".into()).serialize();
    let (rem, got) = command(&bytes).unwrap();
    assert_eq!(got, Command::User("a".into()));
    assert_eq!(rem, b"b\r\n");

    let bytes = Command::Apop {
        name: "a b".into(),
        digest: "c".into(),
    }
    .serialize();
    let (_, got) = command(&bytes).unwrap();
    assert_eq!(
        got,
        Command::Apop {
            name: "a".into(),
            digest: "b c".into()
        }
    );

    let bytes = Command::Lang {
        lang_or_wild: Language::Lang("*".into()),
    }
    .serialize();
    let (_, got) = command(&bytes).unwrap();
    assert_eq!(
        got,
        Command::Lang {
            lang_or_wild: Language::Wild
        }
    );

    let bytes = Command::Auth {
        mechanism: "".into(),
        initial_response: None,
    }
    .serialize();
    assert_eq!(command(&bytes).unwrap_err(), ParseError::Syntax);
}
