use pop3_codec::parse::response::capability;
use pop3_codec::parse::token::ParseError;
use pop3_codec::parse::{
    command, greeting, response_capa, response_lang_all, response_list, response_list_all,
    response_retr, response_stat, response_uidl, response_uidl_all, response_user,
};
use std::fmt::Debug;

/// What a parser reports on every part of the input is the same as on the
/// whole input, unless it is "incomplete".
fn settled<T: PartialEq + Debug>(
    parser: fn(&[u8]) -> Result<(&[u8], T), ParseError>,
    input: &[u8],
) {
    let whole = parser(input).map(|(rest, value)| (input.len() - rest.len(), value));
    for cut in 0..=input.len() {
        let part = &input[..cut];
        match parser(part) {
            Err(ParseError::Incomplete) => {}
            Err(ParseError::Syntax) => {
                assert_eq!(whole, Err(ParseError::Syntax), "{:?}", part)
            }
            Ok((rest, value)) => {
                assert_eq!(whole, Ok((cut - rest.len(), value)), "{:?}", part)
            }
        }
    }
}

/// Every proper beginning of an input that is read to its end is incomplete.
fn asks_for_more<T: Debug>(parser: fn(&[u8]) -> Result<(&[u8], T), ParseError>, input: &[u8]) {
    let (rest, _) = parser(input).unwrap();
    assert!(rest.is_empty());
    for cut in 0..input.len() {
        assert_eq!(
            parser(&input[..cut]).unwrap_err(),
            ParseError::Incomplete,
            "{:?}",
            &input[..cut]
        );
    }
}

fn command_lines() -> Vec<&'static [u8]> {
    vec![
        b"USER mrose\r\n",
        b"PASS tan staaf\r\n",
        b"APOP mrose c4c9334bac560ecc979e58001b3e22fb\r\n",
        b"STLS\r\n",
        b"CAPA\r\n",
        b"QUIT\r\n",
        b"STAT\r\n",
        b"LIST\r\n",
        b"LIST 17\r\n",
        b"RETR 1\r\n",
        b"DELE 2\r\n",
        b"NOOP\r\n",
        b"RSET\r\n",
        b"TOP 1 10\r\n",
        b"UIDL\r\n",
        b"UIDL 3\r\n",
        b"AUTH\r\n",
        b"AUTH PLAIN\r\n",
        b"AUTH PLAIN dGVzdA==\r\n",
        b"AUTH PLAIN =\r\n",
        b"UTF8\r\n",
        b"LANG\r\n",
        b"LANG *\r\n",
        b"LANG en-boont\r\n",
        b"LANG abcdefgh-x\r\n",
        b"noop\n",
    ]
}

#[test]
fn commands_ask_for_more_until_they_end() {
    for line in command_lines() {
        asks_for_more(command, line);
    }
}

#[test]
fn command_outcomes_are_final() {
    for line in command_lines() {
        settled(command, line);
        let mut two = line.to_vec();
        two.extend_from_slice(b"NOOP\r\n");
        settled(command, &two);
    }
    let wrong: [&[u8]; 12] = [
        b"HELO example.org\r\n",
        b"STATS\r\n",
        b"RETR x\r\n",
        b"RETR 4294967296\r\n",
        b"LIST 1 2\r\n",
        b"USER a\rb\r\n",
        b"USER \xff\r\n",
        b"AUTH PLAIN a=b\r\n",
        b"AUTH PLAIN ===\r\n",
        b"LANG abcdefghi\r\n",
        b"LANG en-\r\n",
        b"TOP 1\r\n",
    ];
    for line in wrong {
        assert_eq!(command(line).unwrap_err(), ParseError::Syntax);
        settled(command, line);
    }
}

#[test]
fn greeting_outcomes_are_final() {
    let inputs: [&[u8]; 9] = [
        b"+OK\r\n",
        b"+OK POP3 server ready <1896.697170952@dbc.mtview.ca.us>\r\n",
        b"+ok [a/b] text\r\n",
        b"+OK [abc\r\n",
        b"+OK [a]\r\n",
        b"+OK <1> <2>\r\n",
        b"+OK <\xff>\r\n",
        b"-ERR\r\n",
        b"+OK a\rb\r\n",
    ];
    for input in inputs {
        settled(greeting, input);
    }
    asks_for_more(greeting, b"+OK\r\n");
    asks_for_more(greeting, b"+ok Hello <123> World!\r\n");
    asks_for_more(greeting, b"+ok [a/b] text\r\n");
}

#[test]
fn response_outcomes_are_final() {
    let single: [&[u8]; 8] = [
        b"+OK\r\n",
        b"+OK 2 320\r\n",
        b"+OK 2 QhdPYR:00WBw1Ph7x7\r\n",
        b"+OK [a/b] ABC! 1 < 3\r\n",
        b"-ERR [IN-USE] maildrop locked\r\n",
        b"+OK a[b\r\n",
        b"+OK2 320\r\n",
        b"+NO\r\n",
    ];
    for input in single {
        settled(response_user, input);
        settled(response_stat, input);
        settled(response_list, input);
        settled(response_uidl, input);
    }
    let multi: [&[u8]; 9] = [
        b"+OK\r\n.\r\n",
        b"+OK 2 messages (320 octets)\r\n1 120\r\n2 200\r\n.\r\n",
        b"+OK\r\n1 whqtswO00WBw418f9t5JxYwZ\r\n2 QhdPYR:00WBw1Ph7x7\r\n.\r\n",
        b"+OK\r\nen English\r\ni-default Default language\r\n.\r\n",
        b"+OK\r\n..\r\n...\r\n\r\n.\r\n",
        b"+OK\r\nTOP\r\n\r\nSASL PLAIN LOGIN\r\n\r\n.\r\n",
        b"+OK\r\nTOP\r\nSASL PLAIN LOGIN\r\nSASL\r\n.\r\n",
        b"+OK\r\n1 120\r\nx\r\n.\r\n",
        b"-ERR no such message\r\n",
    ];
    for input in multi {
        settled(response_retr, input);
        settled(response_list_all, input);
        settled(response_uidl_all, input);
        settled(response_lang_all, input);
        settled(response_capa, input);
    }
    asks_for_more(response_retr, b"+OK\r\n..\r\n...\r\n\r\n.\r\n");
    asks_for_more(response_list_all, b"+OK\r\n1 120\r\n2 200\r\n.\r\n");
    asks_for_more(response_user, b"-ERR [IN-USE] maildrop locked\r\n");
    asks_for_more(response_capa, b"+OK\r\nTOP\r\nUSER\r\n.\r\n");
}

#[test]
fn capability_outcomes_are_final() {
    let lines: [&[u8]; 12] = [
        b"TOP\r\n",
        b"SASL PLAIN LOGIN\r\n",
        b"LOGIN-DELAY 900 USER\r\n",
        b"EXPIRE NEVER\r\n",
        b"EXPIRE NEVERMORE\r\n",
        b"EXPIRE 60 user\r\n",
        b"IMPLEMENTATION Shlemazle-Plotz-v302\r\n",
        b"UTF8 USER\r\n",
        b"X-SPECIAL something different\r\n",
        b"TOP \r\n",
        b".\r\n",
        b"LOGIN-DELAY 4294967296\r\n",
    ];
    for line in lines {
        settled(capability, line);
    }
    asks_for_more(capability, b"LOGIN-DELAY 900 USER\r\n");
    asks_for_more(capability, b"X-SPECIAL something different\r\n");
}
