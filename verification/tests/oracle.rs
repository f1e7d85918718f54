//! The grammar written a second time, with the streaming combinators of
//! `nom`, and the parsers of the library held against it on many inputs.

use abnf_core::streaming::sp;
use abnf_core::{is_alpha, is_vchar};
use nom::branch::alt;
use nom::bytes::streaming::{tag, tag_no_case, take_till, take_while, take_while1, take_while_m_n};
use nom::character::is_alphanumeric;
use nom::character::streaming::{digit1, line_ending, not_line_ending};
use nom::combinator;
use nom::combinator::{map_res, opt, recognize, value};
use nom::multi::{many0, separated_list1};
use nom::sequence::{delimited, preceded, separated_pair, terminated, tuple};
use nom::IResult;
use pop3_codec::parse::token::ParseError;
use pop3_codec::types::command::{Command, Language};
use pop3_codec::types::response::{
    Capability, DropListing, ExpirePolicy, Greeting, LanguageListing, MultiLine, Response,
    ScanListing, SingleLine, UniqueIdListing,
};
use std::fmt::Debug;
use std::str::from_utf8;

type In<'a> = &'a [u8];

fn number(input: In) -> IResult<In, u32> {
    map_res(map_res(digit1, from_utf8), str::parse::<u32>)(input)
}

fn language(input: In) -> IResult<In, &str> {
    map_res(
        recognize(tuple((
            take_while_m_n(1, 8, |b: u8| is_alpha(b)),
            many0(tuple((tag(&b"-"[..]), take_while_m_n(1, 8, is_alphanumeric)))),
        ))),
        from_utf8,
    )(input)
}

fn param(input: In) -> IResult<In, &str> {
    map_res(take_while1(|b: u8| is_vchar(b)), from_utf8)(input)
}

fn line(input: In) -> IResult<In, String> {
    combinator::map(map_res(not_line_ending, from_utf8), String::from)(input)
}

// ----- commands -----

fn auth_char(b: u8) -> bool {
    b.is_ascii_alphanumeric() || b == b'-' || b == b'_'
}

fn base64_char(b: u8) -> bool {
    b.is_ascii_alphanumeric() || b == b'+' || b == b'/'
}

fn base64(input: In) -> IResult<In, &str> {
    map_res(
        recognize(tuple((
            take_while(base64_char),
            opt(alt((tag("=="), tag("=")))),
        ))),
        from_utf8,
    )(input)
}

fn optional_number(keyword: &'static str) -> impl Fn(In) -> IResult<In, Option<u32>> {
    move |input| preceded(tag_no_case(keyword), opt(preceded(tag(" "), number)))(input)
}

fn one_number(keyword: &'static str) -> impl Fn(In) -> IResult<In, u32> {
    move |input| preceded(tuple((tag_no_case(keyword), tag(" "))), number)(input)
}

fn verb(input: In) -> IResult<In, Command> {
    alt((
        combinator::map(
            preceded(tuple((tag_no_case("USER"), tag(" "))), line),
            Command::User,
        ),
        combinator::map(
            preceded(tuple((tag_no_case("PASS"), tag(" "))), line),
            Command::Pass,
        ),
        combinator::map(
            tuple((
                tag_no_case("APOP"),
                tag(" "),
                map_res(take_while(|b| b != b' '), from_utf8),
                tag(" "),
                line,
            )),
            |(_, _, name, _, digest)| Command::Apop {
                name: name.to_owned(),
                digest,
            },
        ),
        value(Command::Stls, tag_no_case("STLS")),
        value(Command::Capa, tag_no_case("CAPA")),
        value(Command::Quit, tag_no_case("QUIT")),
        value(Command::Stat, tag_no_case("STAT")),
        combinator::map(optional_number("LIST"), |msg| match msg {
            Some(msg) => Command::List { msg },
            None => Command::ListAll,
        }),
        combinator::map(one_number("RETR"), |msg| Command::Retr { msg }),
        combinator::map(one_number("DELE"), |msg| Command::Dele { msg }),
        value(Command::Noop, tag_no_case("NOOP")),
        value(Command::Rset, tag_no_case("RSET")),
        combinator::map(
            tuple((one_number("TOP"), tag(" "), number)),
            |(msg, _, n)| Command::Top { msg, n },
        ),
        combinator::map(optional_number("UIDL"), |msg| match msg {
            Some(msg) => Command::Uidl { msg },
            None => Command::UidlAll,
        }),
        alt((
            combinator::map(
                tuple((
                    tag_no_case("AUTH"),
                    tag(" "),
                    map_res(take_while1(auth_char), from_utf8),
                    opt(preceded(
                        tag(" "),
                        alt((base64, map_res(tag("="), from_utf8))),
                    )),
                )),
                |(_, _, mechanism, initial_response)| Command::Auth {
                    mechanism: mechanism.to_owned(),
                    initial_response: initial_response.map(str::to_owned),
                },
            ),
            value(Command::AuthAll, tag_no_case("AUTH")),
        )),
        value(Command::Utf8, tag_no_case("UTF8")),
        combinator::map(
            preceded(
                tag_no_case("LANG"),
                opt(preceded(
                    tag(" "),
                    alt((
                        value(Language::Wild, tag("*")),
                        combinator::map(language, |tag| Language::Lang(tag.to_owned())),
                    )),
                )),
            ),
            |operand| match operand {
                Some(lang_or_wild) => Command::Lang { lang_or_wild },
                None => Command::LangAll,
            },
        ),
    ))(input)
}

fn command(input: In) -> IResult<In, Command> {
    terminated(verb, line_ending)(input)
}

// ----- responses -----

fn rchar(b: u8) -> bool {
    matches!(b, 0x21..=0x2E | 0x30..=0x5C | 0x5E..=0x7F)
}

fn gchar(b: u8) -> bool {
    matches!(b, 0x20..=0x3B | 0x3D..=0x7F)
}

fn schar(b: u8) -> bool {
    matches!(b, 0x20..=0x5A | 0x5C..=0x7F)
}

fn cchar(b: u8) -> bool {
    matches!(b, 0x21..=0x2D | 0x2F..=0x7F)
}

fn resp_code(input: In) -> IResult<In, Vec<String>> {
    delimited(
        tag("["),
        separated_list1(
            tag("/"),
            combinator::map(map_res(take_while1(rchar), from_utf8), String::from),
        ),
        tag("]"),
    )(input)
}

fn timestamp(input: In) -> IResult<In, &str> {
    delimited(
        tag("<"),
        map_res(take_till(|b| b == b'>'), from_utf8),
        tag(">"),
    )(input)
}

fn greeting(input: In) -> IResult<In, Greeting> {
    combinator::map(
        tuple((
            tag_no_case("+OK"),
            opt(preceded(sp, resp_code)),
            opt(preceded(
                sp,
                tuple((
                    map_res(take_while(gchar), from_utf8),
                    opt(timestamp),
                    map_res(take_while(gchar), from_utf8),
                )),
            )),
            line_ending,
        )),
        |(_, code, body, _)| {
            let code = code.unwrap_or_default();
            match body {
                Some((before, Some(stamp), after)) => Greeting {
                    code,
                    comment: format!("{}<>{}", before, after),
                    timestamp: Some(stamp.to_owned()),
                },
                Some((before, None, after)) => Greeting {
                    code,
                    comment: format!("{}{}", before, after),
                    timestamp: None,
                },
                None => Greeting {
                    code,
                    comment: String::new(),
                    timestamp: None,
                },
            }
        },
    )(input)
}

fn head(input: In) -> IResult<In, SingleLine> {
    combinator::map(
        opt(preceded(
            sp,
            alt((
                combinator::map(
                    tuple((terminated(resp_code, sp), line)),
                    |(code, comment)| SingleLine { code, comment },
                ),
                combinator::map(map_res(take_while(schar), from_utf8), |comment| SingleLine {
                    code: vec![],
                    comment: comment.to_owned(),
                }),
            )),
        )),
        |found| {
            found.unwrap_or(SingleLine {
                code: vec![],
                comment: String::new(),
            })
        },
    )(input)
}

fn single_line<T>(
    payload: impl Fn(In) -> IResult<In, T>,
    payload_required: bool,
) -> impl Fn(In) -> IResult<In, Response<T, SingleLine>> {
    move |input| {
        let (rest, positive) = alt((
            value(true, tag_no_case("+OK")),
            value(false, tag_no_case("-ERR")),
        ))(input)?;
        if positive {
            let rest = if payload_required {
                sp(rest)?.0
            } else {
                rest
            };
            let (rest, found) = payload(rest)?;
            let (rest, _) = line_ending(rest)?;
            Ok((rest, Response::Positive(found)))
        } else {
            let (rest, found) = terminated(head, line_ending)(rest)?;
            Ok((rest, Response::Negative(found)))
        }
    }
}

fn multi_line<T>(
    item: impl Fn(In) -> IResult<In, T> + Copy,
) -> impl Fn(In) -> IResult<In, Response<MultiLine<T>, SingleLine>> {
    move |input| {
        let (rest, first) = single_line(head, false)(input)?;
        match first {
            Response::Positive(head) => {
                let (rest, body) = terminated(
                    many0(terminated(item, line_ending)),
                    tuple((tag("."), line_ending)),
                )(rest)?;
                Ok((rest, Response::Positive(MultiLine { head, body })))
            }
            Response::Negative(head) => Ok((rest, Response::Negative(head))),
        }
    }
}

fn capability_listing(input: In) -> IResult<In, Response<MultiLine<Capability>, SingleLine>> {
    let (rest, first) = single_line(head, false)(input)?;
    match first {
        Response::Positive(head) => {
            let (rest, body) =
                terminated(many0(capability), tuple((tag("."), line_ending)))(rest)?;
            Ok((rest, Response::Positive(MultiLine { head, body })))
        }
        Response::Negative(head) => Ok((rest, Response::Negative(head))),
    }
}

fn drop_listing(input: In) -> IResult<In, DropListing> {
    combinator::map(
        separated_pair(number, sp, number),
        |(message_count, maildrop_size)| DropListing {
            message_count,
            maildrop_size,
        },
    )(input)
}

fn scan_listing(input: In) -> IResult<In, ScanListing> {
    combinator::map(
        separated_pair(number, sp, number),
        |(message_id, message_size)| ScanListing {
            message_id,
            message_size,
        },
    )(input)
}

fn unique_id_listing(input: In) -> IResult<In, UniqueIdListing> {
    combinator::map(
        separated_pair(
            number,
            sp,
            map_res(
                take_while_m_n(1, 70, |b| matches!(b, 0x21..=0x7e)),
                from_utf8,
            ),
        ),
        |(message_id, uid)| UniqueIdListing {
            message_id,
            message_uid: uid.to_owned(),
        },
    )(input)
}

fn language_listing(input: In) -> IResult<In, LanguageListing> {
    combinator::map(separated_pair(language, sp, line), |(tag, description)| {
        LanguageListing {
            tag: tag.to_owned(),
            description,
        }
    })(input)
}

fn dot_stuffed(input: In) -> IResult<In, String> {
    let (rest, text) = line(input)?;
    if text == "." {
        Err(nom::Err::Error(nom::error::Error::new(
            input,
            nom::error::ErrorKind::IsNot,
        )))
    } else {
        Ok((rest, text))
    }
}

fn params(input: In) -> IResult<In, Vec<String>> {
    many0(preceded(sp, combinator::map(param, String::from)))(input)
}

fn per_user(input: In) -> IResult<In, bool> {
    combinator::map(opt(tag_no_case(" USER")), |flag| flag.is_some())(input)
}

fn bare(
    keyword: &'static str,
    capability: Capability,
) -> impl Fn(In) -> IResult<In, Capability> {
    move |input| {
        value(
            capability.clone(),
            tuple((tag_no_case(keyword), line_ending)),
        )(input)
    }
}

fn capability(input: In) -> IResult<In, Capability> {
    alt((
        bare("TOP", Capability::Top),
        bare("USER", Capability::User),
        combinator::map(
            tuple((tag_no_case("SASL"), params, line_ending)),
            |(_, mechanisms, _)| Capability::Sasl { mechanisms },
        ),
        bare("RESP-CODES", Capability::RespCodes),
        combinator::map(
            tuple((tag_no_case("LOGIN-DELAY"), sp, number, per_user, line_ending)),
            |(_, _, minimum_seconds, per_user, _)| Capability::LoginDelay {
                minimum_seconds,
                per_user,
            },
        ),
        bare("PIPELINING", Capability::Pipelining),
        combinator::map(
            tuple((
                tag_no_case("EXPIRE"),
                sp,
                alt((
                    combinator::map(number, ExpirePolicy::MinimumDays),
                    value(ExpirePolicy::Never, tag_no_case("NEVER")),
                )),
                per_user,
                line_ending,
            )),
            |(_, _, policy, per_user, _)| Capability::Expire { policy, per_user },
        ),
        bare("UIDL", Capability::Uidl),
        combinator::map(
            tuple((tag_no_case("IMPLEMENTATION"), sp, line, line_ending)),
            |(_, _, text, _)| Capability::Implementation { text },
        ),
        bare("STLS", Capability::Stls),
        bare("AUTH-RESP-CODE", Capability::AuthRespCode),
        bare("LANG", Capability::Lang),
        combinator::map(
            tuple((tag_no_case("UTF8"), per_user, line_ending)),
            |(_, in_credentials, _)| Capability::Utf8 { in_credentials },
        ),
        combinator::map(
            tuple((
                map_res(take_while1(cchar), from_utf8),
                params,
                line_ending,
            )),
            |(tag, parameters, _)| Capability::Other {
                tag: tag.to_owned(),
                parameters,
            },
        ),
    ))(input)
}

// ----- the comparison -----

fn same<T: PartialEq + Debug>(
    input: &[u8],
    ours: Result<(&[u8], T), ParseError>,
    theirs: IResult<&[u8], T>,
) {
    let theirs = match theirs {
        Ok(found) => Ok(found),
        Err(nom::Err::Incomplete(_)) => Err(ParseError::Incomplete),
        Err(_) => Err(ParseError::Syntax),
    };
    assert_eq!(ours, theirs, "{:?}", String::from_utf8_lossy(input));
}

fn seeds() -> Vec<Vec<u8>> {
    let texts: Vec<&[u8]> = vec![
        b"USER mrose\r\n",
        b"PASS tan staaf\r\n",
        b"APOP mrose c4c9334bac560ecc979e58001b3e22fb\r\n",
        b"APOP  a b\r\n",
        b"STLS\r\n",
        b"CAPA\r\n",
        b"QUIT\r\n",
        b"STAT\r\n",
        b"LIST\r\n",
        b"LIST 17\r\n",
        b"LIST 4294967295\r\n",
        b"LIST 4294967296\r\n",
        b"RETR 007\r\n",
        b"DELE 2\r\n",
        b"NOOP\n",
        b"RSET\r\n",
        b"TOP 1 10\r\n",
        b"UIDL 3\r\n",
        b"AUTH\r\n",
        b"AUTH PLAIN\r\n",
        b"AUTH CRAM-MD5 dGVzdA==\r\n",
        b"AUTH X_1 =\r\n",
        b"AUTH PLAIN a=b\r\n",
        b"UTF8\r\n",
        b"LANG\r\n",
        b"LANG *\r\n",
        b"LANG en-boont-x1\r\n",
        b"LANG abcdefghi\r\n",
        b"USER zo\xc3\xab\r\n",
        b"USER \xff\r\n",
        b"+OK\r\n",
        b"+OK \r\n",
        b"+ok Hello <123> World!\r\n",
        b"+ok [a/b] text\r\n",
        b"+OK [SYS/TEMP] try <1> later\r\n",
        b"+OK [abc\r\n",
        b"+OK [a/] x\r\n",
        b"+OK POP3 server ready <1896.697170952@dbc.mtview.ca.us>\r\n",
        b"+OK <a\r\nb>\r\n",
        b"-ERR [IN-USE] maildrop locked\r\n",
        b"-err no such message\n",
        b"+OK 2 320\r\n",
        b"+OK 2 QhdPYR:00WBw1Ph7x7\r\n",
        b"+OK a[b\r\n",
        b"+OK\r\n.\r\n",
        b"+OK 2 messages (320 octets)\r\n1 120\r\n2 200\r\n.\r\n",
        b"+OK\n1 whqtswO00WBw418f9t5JxYwZ\n2 QhdPYR:00WBw1Ph7x7\n.\n",
        b"+OK\r\nen English\r\nen-boont English Boontling dialect\r\n.\r\n",
        b"+OK\r\n..\r\n...\r\n\r\n .\r\n.\r\n",
        b"+OK\r\nTOP\r\n\r\nSASL PLAIN LOGIN\r\n\r\nEXPIRE NEVER USER\r\n\r\n.\r\n",
        b"+OK\r\nTOP\r\nUSER\r\n.\r\n",
        b"+OK list\r\nSASL PLAIN LOGIN\r\nSASL\r\nEXPIRE NEVER USER\r\nX-NEW\r\n.\r\n",
        b"TOP\r\n",
        b"USER\r\n",
        b"SASL\r\n",
        b"SASL PLAIN LOGIN\r\n",
        b"RESP-CODES\r\n",
        b"LOGIN-DELAY 900 USER\r\n",
        b"login-delay 4294967296\r\n",
        b"PIPELINING\r\n",
        b"EXPIRE 60\r\n",
        b"EXPIRE NEVER user\r\n",
        b"EXPIRE NEVERMORE\r\n",
        b"UIDL\r\n",
        b"IMPLEMENTATION Shlemazle-Plotz-v302\r\n",
        b"IMPLEMENTATION \r\n",
        b"STLS\r\n",
        b"AUTH-RESP-CODE\r\n",
        b"LANG\r\n",
        b"UTF8 USER\r\n",
        b"UTF8 USERS\r\n",
        b"X-SPECIAL something different\r\n",
        b".\r\n",
        b"",
    ];
    texts.into_iter().map(<[u8]>::to_vec).collect()
}

/// The seeds, their beginnings, and each seed with one byte changed,
/// dropped or doubled at places that a small generator picks.
fn corpus() -> Vec<Vec<u8>> {
    let replacements: &[u8] = b" \r\n.-=*[]/<>0aZ\x7f\xff+";
    let mut state: u32 = 12345;
    let mut next = move |bound: usize| -> usize {
        state = state.wrapping_mul(1103515245).wrapping_add(12345);
        ((state >> 8) as usize) % bound
    };
    let mut inputs = Vec::new();
    for seed in seeds() {
        for cut in 0..=seed.len() {
            inputs.push(seed[..cut].to_vec());
        }
        if seed.is_empty() {
            continue;
        }
        for _ in 0..40 {
            let at = next(seed.len());
            let byte = replacements[next(replacements.len())];
            let mut changed = seed.clone();
            match next(3) {
                0 => changed[at] = byte,
                1 => {
                    changed.remove(at);
                }
                _ => changed.insert(at, byte),
            }
            inputs.push(changed);
        }
    }
    inputs
}

#[test]
fn commands_as_the_combinators_read_them() {
    for input in corpus() {
        same(&input, pop3_codec::parse::command(&input), command(&input));
    }
}

#[test]
fn greetings_as_the_combinators_read_them() {
    for input in corpus() {
        same(&input, pop3_codec::parse::greeting(&input), greeting(&input));
    }
}

#[test]
fn capabilities_as_the_combinators_read_them() {
    for input in corpus() {
        same(
            &input,
            pop3_codec::parse::response::capability(&input),
            capability(&input),
        );
    }
}

#[test]
fn single_lines_as_the_combinators_read_them() {
    for input in corpus() {
        same(
            &input,
            pop3_codec::parse::response_user(&input),
            single_line(head, false)(&input),
        );
        same(
            &input,
            pop3_codec::parse::response_stat(&input),
            single_line(drop_listing, true)(&input),
        );
        same(
            &input,
            pop3_codec::parse::response_list(&input),
            single_line(scan_listing, true)(&input),
        );
        same(
            &input,
            pop3_codec::parse::response_uidl(&input),
            single_line(unique_id_listing, true)(&input),
        );
        same(
            &input,
            pop3_codec::parse::response::single_line(
                &input,
                pop3_codec::parse::response::drop_listing,
                false,
            ),
            single_line(drop_listing, false)(&input),
        );
    }
}

#[test]
fn multi_lines_as_the_combinators_read_them() {
    for input in corpus() {
        same(
            &input,
            pop3_codec::parse::response_retr(&input),
            multi_line(dot_stuffed)(&input),
        );
        same(
            &input,
            pop3_codec::parse::response_list_all(&input),
            multi_line(scan_listing)(&input),
        );
        same(
            &input,
            pop3_codec::parse::response_uidl_all(&input),
            multi_line(unique_id_listing)(&input),
        );
        same(
            &input,
            pop3_codec::parse::response_lang_all(&input),
            multi_line(language_listing)(&input),
        );
        same(
            &input,
            pop3_codec::parse::response_capa(&input),
            capability_listing(&input),
        );
    }
}

#[test]
fn tokens_as_the_combinators_read_them() {
    for input in corpus() {
        same(
            &input,
            pop3_codec::parse::token::language(&input),
            language(&input),
        );
        same(&input, pop3_codec::parse::token::param(&input), param(&input));
        same(
            &input,
            pop3_codec::parse::token::number(&input),
            number(&input),
        );
        same(
            &input,
            pop3_codec::parse::command::base64(&input),
            base64(&input),
        );
        same(
            &input,
            pop3_codec::parse::response::timestamp(&input),
            timestamp(&input),
        );
        same(
            &input,
            pop3_codec::parse::response::resp_code(&input),
            resp_code(&input),
        );
        same(
            &input,
            pop3_codec::parse::response::dot_stuffed(&input),
            dot_stuffed(&input),
        );
    }
}
