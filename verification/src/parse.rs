//! Parsers from wire bytes to typed commands and responses.
//!
//! A response does not say which command it answers: its shape depends on
//! the command. So there is one parser for the greeting, one for commands, and
//! one for the response to each command.

pub mod charset;
pub mod command;
pub mod response;
pub mod token;

use crate::parse::command::{
    apop, auth, capa, dele, lang, list, noop, pass, quit, retr, rset, spec_apop, spec_auth,
    spec_capa, spec_dele, spec_lang, spec_list, spec_noop, spec_pass, spec_quit, spec_retr,
    spec_rset, spec_stat, spec_stls, spec_top, spec_uidl, spec_user, spec_utf8, stat, stls, top,
    uidl, user, utf8,
};
use crate::parse::response::{
    capability, dot_stuffed, drop_listing, head, head_rule, implements, language_listing,
    listing, spec_listing,
    multi_line, resp_code, scan_listing, single_line, spec_capability, spec_dot_stuffed,
    spec_drop_listing, spec_language_listing, spec_multi_line, spec_resp_code, spec_scan_listing,
    spec_single_line, spec_status_line, spec_timestamp, spec_unique_id_listing, timestamp,
    unique_id_listing,
};
use crate::parse::token::{
    agrees, lemma_skip_twice, line_ending, optional, or_else, run_text, space, spec_line_ending,
    spec_run_text, spec_space, spec_tag_no_case, tag_no_case, then, ByteClass, ParseError, Parsed,
};
use crate::types::command::{Command, CommandView};
use crate::types::response::{
    Capability, CapabilityView, DropListing, Greeting, GreetingView, LanguageListing,
    LanguageListingView, MultiLine, MultiLineView, Response, ScanListing, SingleLine,
    SingleLineView, UniqueIdListing, UniqueIdListingView,
};
use vstd::prelude::*;
use vstd::string::*;

verus! {

broadcast use lemma_skip_twice;

// ----- the greeting -----
/// A space and a response code.
pub open spec fn spec_space_code(s: Seq<u8>) -> Parsed<Seq<Seq<char>>> {
    let gap = spec_space(s);
    match then(gap, spec_resp_code(s.skip(gap.used() as int))) {
        Parsed::Done((_, code), n) => Parsed::Done(code, n),
        failed => failed.failure(),
    }
}

/// The comment of a greeting: text without `<`, a timestamp where one
/// follows, and text without `<` again.
pub open spec fn spec_greeting_comment(s: Seq<u8>) -> Parsed<
    (Seq<char>, Option<Seq<char>>, Seq<char>),
> {
    let before = spec_run_text(s, ByteClass::Greeting);
    let stamp = optional(spec_timestamp(s.skip(before.used() as int)));
    let after = spec_run_text(s.skip((before.used() + stamp.used()) as int), ByteClass::Greeting);
    match then(then(before, stamp), after) {
        Parsed::Done(((before, stamp), after), n) => Parsed::Done((before, stamp, after), n),
        failed => failed.failure(),
    }
}

/// A space and the comment of a greeting.
pub open spec fn spec_space_comment(s: Seq<u8>) -> Parsed<
    (Seq<char>, Option<Seq<char>>, Seq<char>),
> {
    let gap = spec_space(s);
    match then(gap, spec_greeting_comment(s.skip(gap.used() as int))) {
        Parsed::Done((_, comment), n) => Parsed::Done(comment, n),
        failed => failed.failure(),
    }
}

/// The comment and the timestamp that are made of the parts that were
/// read. Where there is a timestamp, the comment holds `<>` in its place.
pub open spec fn spec_comment_of(parts: (Seq<char>, Option<Seq<char>>, Seq<char>)) -> (
    Seq<char>,
    Option<Seq<char>>,
) {
    match parts.1 {
        Some(stamp) => (parts.0 + "<>"@ + parts.2, Some(stamp)),
        None => (parts.0 + parts.2, None),
    }
}

/// A response code after a space, or no code.
#[verifier::opaque]
pub open spec fn spec_optional_code(s: Seq<u8>) -> Parsed<Seq<Seq<char>>> {
    match optional(spec_space_code(s)) {
        Parsed::Done(Some(code), n) => Parsed::Done(code, n),
        Parsed::Done(None, n) => Parsed::Done(Seq::empty(), n),
        failed => failed.failure(),
    }
}

/// A comment after a space, with the timestamp it holds, or no comment.
#[verifier::opaque]
pub open spec fn spec_optional_comment(s: Seq<u8>) -> Parsed<(Seq<char>, Option<Seq<char>>)> {
    match optional(spec_space_comment(s)) {
        Parsed::Done(Some(parts), n) => Parsed::Done(spec_comment_of(parts), n),
        Parsed::Done(None, n) => Parsed::Done((Seq::empty(), None), n),
        failed => failed.failure(),
    }
}

/// The greeting: `+OK`, a response code after a space where there is one,
/// a comment after a space where there is one, and the line ending.
pub open spec fn spec_greeting(s: Seq<u8>) -> Parsed<GreetingView> {
    let status = spec_tag_no_case(s, "+OK"@);
    let code = spec_optional_code(s.skip(status.used() as int));
    let comment = spec_optional_comment(s.skip((status.used() + code.used()) as int));
    let end = spec_line_ending(s.skip((status.used() + code.used() + comment.used()) as int));
    match then(then(then(status, code), comment), end) {
        Parsed::Done((((_, code), comment), _), n) => Parsed::Done(
            GreetingView { code, comment: comment.0, timestamp: comment.1 },
            n,
        ),
        failed => failed.failure(),
    }
}

fn optional_code(input: &[u8]) -> (r: Result<(&[u8], Vec<String>), ParseError>)
    ensures
        agrees(input@, r, spec_optional_code(input@)),
{
    reveal(spec_optional_code);
    let absent: Vec<String> = Vec::new();
    proof {
        assert(input@.skip(0) =~= input@);
        assert(absent.deep_view() =~= Seq::<Seq<char>>::empty());
    }
    match space(input) {
        Ok((after, _)) => match resp_code(after) {
            Ok(found) => Ok(found),
            Err(ParseError::Incomplete) => Err(ParseError::Incomplete),
            Err(ParseError::Syntax) => Ok((input, absent)),
        },
        Err(ParseError::Incomplete) => Err(ParseError::Incomplete),
        Err(ParseError::Syntax) => Ok((input, absent)),
    }
}

fn greeting_comment(input: &[u8]) -> (r: Result<(&[u8], (String, Option<String>)), ParseError>)
    ensures
        match spec_greeting_comment(input@) {
            Parsed::Done(parts, n) => agrees(input@, r, Parsed::Done(spec_comment_of(parts), n)),
            failed => agrees(input@, r, failed.failure()),
        },
{
    let (rest, before) = run_text(input, ByteClass::Greeting)?;
    let mut comment = before.to_owned();
    let (rest, stamp) = match timestamp(rest) {
        Ok((after, stamp)) => {
            comment.append("<>");
            (after, Some(stamp.to_owned()))
        },
        Err(ParseError::Incomplete) => {
            return Err(ParseError::Incomplete);
        },
        Err(ParseError::Syntax) => {
            proof {
                assert(rest@.skip(0) =~= rest@);
            }
            (rest, None)
        },
    };
    let (rest, after) = run_text(rest, ByteClass::Greeting)?;
    comment.append(after);
    Ok((rest, (comment, stamp)))
}

fn optional_comment(input: &[u8]) -> (r: Result<(&[u8], (String, Option<String>)), ParseError>)
    ensures
        agrees(input@, r, spec_optional_comment(input@)),
{
    reveal(spec_optional_comment);
    proof {
        assert(input@.skip(0) =~= input@);
    }
    match space(input) {
        Ok((after, _)) => match greeting_comment(after) {
            Ok(found) => Ok(found),
            Err(ParseError::Incomplete) => Err(ParseError::Incomplete),
            Err(ParseError::Syntax) => Ok((input, (String::new(), None))),
        },
        Err(ParseError::Incomplete) => Err(ParseError::Incomplete),
        Err(ParseError::Syntax) => Ok((input, (String::new(), None))),
    }
}

/// Parses the server greeting.
pub fn greeting(input: &[u8]) -> (r: Result<(&[u8], Greeting), ParseError>)
    ensures
        agrees(input@, r, spec_greeting(input@)),
{
    let (rest, _) = tag_no_case(input, "+OK")?;
    let (rest, code) = optional_code(rest)?;
    let (rest, (comment, timestamp)) = optional_comment(rest)?;
    let (rest, _) = line_ending(rest)?;
    Ok((rest, Greeting { code, comment, timestamp }))
}

// ----- commands -----
/// The verbs, in the order in which they are tried.
#[verifier::opaque]
pub open spec fn spec_verb(s: Seq<u8>) -> Parsed<CommandView> {
    or_else(
        spec_user(s),
        or_else(
            spec_pass(s),
            or_else(
                spec_apop(s),
                or_else(
                    spec_stls(s),
                    or_else(
                        spec_capa(s),
                        or_else(
                            spec_quit(s),
                            or_else(
                                spec_stat(s),
                                or_else(
                                    spec_list(s),
                                    or_else(
                                        spec_retr(s),
                                        or_else(
                                            spec_dele(s),
                                            or_else(
                                                spec_noop(s),
                                                or_else(
                                                    spec_rset(s),
                                                    or_else(
                                                        spec_top(s),
                                                        or_else(
                                                            spec_uidl(s),
                                                            or_else(
                                                                spec_auth(s),
                                                                or_else(spec_utf8(s), spec_lang(s)),
                                                            ),
                                                        ),
                                                    ),
                                                ),
                                            ),
                                        ),
                                    ),
                                ),
                            ),
                        ),
                    ),
                ),
            ),
        ),
    )
}

/// A command: the first verb that matches, and the line ending.
pub open spec fn spec_command(s: Seq<u8>) -> Parsed<CommandView> {
    let verb = spec_verb(s);
    match then(verb, spec_line_ending(s.skip(verb.used() as int))) {
        Parsed::Done((command, _), n) => Parsed::Done(command, n),
        failed => failed.failure(),
    }
}

fn verb(input: &[u8]) -> (r: Result<(&[u8], Command), ParseError>)
    ensures
        agrees(input@, r, spec_verb(input@)),
{
    reveal(spec_verb);
    match user(input) {
        Err(ParseError::Syntax) => {},
        other => {
            return other;
        },
    }
    match pass(input) {
        Err(ParseError::Syntax) => {},
        other => {
            return other;
        },
    }
    match apop(input) {
        Err(ParseError::Syntax) => {},
        other => {
            return other;
        },
    }
    match stls(input) {
        Err(ParseError::Syntax) => {},
        other => {
            return other;
        },
    }
    match capa(input) {
        Err(ParseError::Syntax) => {},
        other => {
            return other;
        },
    }
    match quit(input) {
        Err(ParseError::Syntax) => {},
        other => {
            return other;
        },
    }
    match stat(input) {
        Err(ParseError::Syntax) => {},
        other => {
            return other;
        },
    }
    match list(input) {
        Err(ParseError::Syntax) => {},
        other => {
            return other;
        },
    }
    match retr(input) {
        Err(ParseError::Syntax) => {},
        other => {
            return other;
        },
    }
    match dele(input) {
        Err(ParseError::Syntax) => {},
        other => {
            return other;
        },
    }
    match noop(input) {
        Err(ParseError::Syntax) => {},
        other => {
            return other;
        },
    }
    match rset(input) {
        Err(ParseError::Syntax) => {},
        other => {
            return other;
        },
    }
    match top(input) {
        Err(ParseError::Syntax) => {},
        other => {
            return other;
        },
    }
    match uidl(input) {
        Err(ParseError::Syntax) => {},
        other => {
            return other;
        },
    }
    match auth(input) {
        Err(ParseError::Syntax) => {},
        other => {
            return other;
        },
    }
    match utf8(input) {
        Err(ParseError::Syntax) => {},
        other => {
            return other;
        },
    }
    lang(input)
}

/// Parses any command, with its line ending.
pub fn command(input: &[u8]) -> (r: Result<(&[u8], Command), ParseError>)
    ensures
        agrees(input@, r, spec_command(input@)),
{
    let (rest, command) = verb(input)?;
    let (rest, _) = line_ending(rest)?;
    Ok((rest, command))
}

// ----- responses, by the command they answer -----
/// The rules for the payloads and the body lines, as functions.
pub open spec fn drop_listing_rule() -> spec_fn(Seq<u8>) -> Parsed<DropListing> {
    |s: Seq<u8>| spec_drop_listing(s)
}

pub open spec fn scan_listing_rule() -> spec_fn(Seq<u8>) -> Parsed<ScanListing> {
    |s: Seq<u8>| spec_scan_listing(s)
}

pub open spec fn unique_id_listing_rule() -> spec_fn(Seq<u8>) -> Parsed<UniqueIdListingView> {
    |s: Seq<u8>| spec_unique_id_listing(s)
}

pub open spec fn language_listing_rule() -> spec_fn(Seq<u8>) -> Parsed<LanguageListingView> {
    |s: Seq<u8>| spec_language_listing(s)
}

pub open spec fn dot_stuffed_rule() -> spec_fn(Seq<u8>) -> Parsed<Seq<char>> {
    |s: Seq<u8>| spec_dot_stuffed(s)
}

pub open spec fn capability_rule() -> spec_fn(Seq<u8>) -> Parsed<CapabilityView> {
    |s: Seq<u8>| spec_capability(s)
}

/// A response that is a status line, whether positive or negative.
pub open spec fn spec_status_response(s: Seq<u8>) -> Parsed<
    Response<SingleLineView, SingleLineView>,
> {
    spec_status_line(s)
}

/// The response to CAPA: a status line and, where it is positive, the
/// capability lines up to the line that is a lone `.`. Each capability line
/// ends with its own line ending.
pub open spec fn spec_capability_listing(s: Seq<u8>) -> Parsed<
    Response<MultiLineView<CapabilityView>, SingleLineView>,
> {
    spec_listing(capability_rule(), true, s)
}

/// A multi-line response whose body lines are lines of a message.
pub open spec fn spec_message_response(s: Seq<u8>) -> Parsed<
    Response<MultiLineView<Seq<char>>, SingleLineView>,
> {
    spec_multi_line(dot_stuffed_rule(), s)
}

fn status_response(input: &[u8]) -> (r: Result<
    (&[u8], Response<SingleLine, SingleLine>),
    ParseError,
>)
    ensures
        agrees(input@, r, spec_status_response(input@)),
{
    let r = single_line(input, head, false);
    proof {
        assert(implements(head, head_rule()));
    }
    r
}

fn message_response(input: &[u8]) -> (r: Result<
    (&[u8], Response<MultiLine<String>, SingleLine>),
    ParseError,
>)
    ensures
        agrees(input@, r, spec_message_response(input@)),
{
    let r = multi_line(input, dot_stuffed);
    proof {
        assert(implements(dot_stuffed, dot_stuffed_rule()));
    }
    r
}

/// Parses the response to USER.
pub fn response_user(input: &[u8]) -> (r: Result<
    (&[u8], Response<SingleLine, SingleLine>),
    ParseError,
>)
    ensures
        agrees(input@, r, spec_status_response(input@)),
{
    status_response(input)
}

/// Parses the response to PASS.
pub fn response_pass(input: &[u8]) -> (r: Result<
    (&[u8], Response<SingleLine, SingleLine>),
    ParseError,
>)
    ensures
        agrees(input@, r, spec_status_response(input@)),
{
    status_response(input)
}

/// Parses the response to STAT: a positive one holds a drop listing.
pub fn response_stat(input: &[u8]) -> (r: Result<
    (&[u8], Response<DropListing, SingleLine>),
    ParseError,
>)
    ensures
        agrees(input@, r, spec_single_line(drop_listing_rule(), true, input@)),
{
    let r = single_line(input, drop_listing, true);
    proof {
        assert(implements(drop_listing, drop_listing_rule()));
    }
    r
}

/// Parses the response to LIST without an operand: a positive one holds a
/// scan listing for each message.
pub fn response_list_all(input: &[u8]) -> (r: Result<
    (&[u8], Response<MultiLine<ScanListing>, SingleLine>),
    ParseError,
>)
    ensures
        agrees(input@, r, spec_multi_line(scan_listing_rule(), input@)),
{
    let r = multi_line(input, scan_listing);
    proof {
        assert(implements(scan_listing, scan_listing_rule()));
    }
    r
}

/// Parses the response to LIST with an operand: a positive one holds the
/// scan listing of the message.
pub fn response_list(input: &[u8]) -> (r: Result<
    (&[u8], Response<ScanListing, SingleLine>),
    ParseError,
>)
    ensures
        agrees(input@, r, spec_single_line(scan_listing_rule(), true, input@)),
{
    let r = single_line(input, scan_listing, true);
    proof {
        assert(implements(scan_listing, scan_listing_rule()));
    }
    r
}

/// Parses the response to RETR: a positive one holds the lines of the message.
pub fn response_retr(input: &[u8]) -> (r: Result<
    (&[u8], Response<MultiLine<String>, SingleLine>),
    ParseError,
>)
    ensures
        agrees(input@, r, spec_message_response(input@)),
{
    message_response(input)
}

/// Parses the response to DELE.
pub fn response_dele(input: &[u8]) -> (r: Result<
    (&[u8], Response<SingleLine, SingleLine>),
    ParseError,
>)
    ensures
        agrees(input@, r, spec_status_response(input@)),
{
    status_response(input)
}

/// Parses the response to NOOP.
pub fn response_noop(input: &[u8]) -> (r: Result<
    (&[u8], Response<SingleLine, SingleLine>),
    ParseError,
>)
    ensures
        agrees(input@, r, spec_status_response(input@)),
{
    status_response(input)
}

/// Parses the response to RSET.
pub fn response_rset(input: &[u8]) -> (r: Result<
    (&[u8], Response<SingleLine, SingleLine>),
    ParseError,
>)
    ensures
        agrees(input@, r, spec_status_response(input@)),
{
    status_response(input)
}

/// Parses the response to QUIT.
pub fn response_quit(input: &[u8]) -> (r: Result<
    (&[u8], Response<SingleLine, SingleLine>),
    ParseError,
>)
    ensures
        agrees(input@, r, spec_status_response(input@)),
{
    status_response(input)
}

/// Parses the response to APOP.
pub fn response_apop(input: &[u8]) -> (r: Result<
    (&[u8], Response<SingleLine, SingleLine>),
    ParseError,
>)
    ensures
        agrees(input@, r, spec_status_response(input@)),
{
    status_response(input)
}

/// Parses the response to TOP: a positive one holds the lines that were
/// asked for.
pub fn response_top(input: &[u8]) -> (r: Result<
    (&[u8], Response<MultiLine<String>, SingleLine>),
    ParseError,
>)
    ensures
        agrees(input@, r, spec_message_response(input@)),
{
    message_response(input)
}

/// Parses the response to UIDL without an operand: a positive one holds a
/// unique-id listing for each message.
pub fn response_uidl_all(input: &[u8]) -> (r: Result<
    (&[u8], Response<MultiLine<UniqueIdListing>, SingleLine>),
    ParseError,
>)
    ensures
        agrees(input@, r, spec_multi_line(unique_id_listing_rule(), input@)),
{
    let r = multi_line(input, unique_id_listing);
    proof {
        assert(implements(unique_id_listing, unique_id_listing_rule()));
    }
    r
}

/// Parses the response to UIDL with an operand: a positive one holds the
/// unique-id listing of the message.
pub fn response_uidl(input: &[u8]) -> (r: Result<
    (&[u8], Response<UniqueIdListing, SingleLine>),
    ParseError,
>)
    ensures
        agrees(input@, r, spec_single_line(unique_id_listing_rule(), true, input@)),
{
    let r = single_line(input, unique_id_listing, true);
    proof {
        assert(implements(unique_id_listing, unique_id_listing_rule()));
    }
    r
}

/// Parses the response to CAPA: a positive one holds the capabilities
/// that the server announces, one on each line. A capability line holds its
/// own line ending, so none is read after it.
pub fn response_capa(input: &[u8]) -> (r: Result<
    (&[u8], Response<MultiLine<Capability>, SingleLine>),
    ParseError,
>)
    ensures
        agrees(input@, r, spec_capability_listing(input@)),
{
    let r = listing(input, capability, true);
    proof {
        assert(implements(capability, capability_rule()));
    }
    r
}

/// Parses the response to STLS.
pub fn response_stls(input: &[u8]) -> (r: Result<
    (&[u8], Response<SingleLine, SingleLine>),
    ParseError,
>)
    ensures
        agrees(input@, r, spec_status_response(input@)),
{
    status_response(input)
}

/// Parses the response to AUTH without an operand: a positive one holds
/// the lines of the listing.
pub fn response_auth_all(input: &[u8]) -> (r: Result<
    (&[u8], Response<MultiLine<String>, SingleLine>),
    ParseError,
>)
    ensures
        agrees(input@, r, spec_message_response(input@)),
{
    message_response(input)
}

/// Parses the response to UTF8.
pub fn response_utf8(input: &[u8]) -> (r: Result<
    (&[u8], Response<SingleLine, SingleLine>),
    ParseError,
>)
    ensures
        agrees(input@, r, spec_status_response(input@)),
{
    status_response(input)
}

/// Parses the response to LANG without an operand: a positive one holds a
/// language listing for each language.
pub fn response_lang_all(input: &[u8]) -> (r: Result<
    (&[u8], Response<MultiLine<LanguageListing>, SingleLine>),
    ParseError,
>)
    ensures
        agrees(input@, r, spec_multi_line(language_listing_rule(), input@)),
{
    let r = multi_line(input, language_listing);
    proof {
        assert(implements(language_listing, language_listing_rule()));
    }
    r
}

/// Parses the response to LANG with an operand.
pub fn response_lang(input: &[u8]) -> (r: Result<
    (&[u8], Response<SingleLine, SingleLine>),
    ParseError,
>)
    ensures
        agrees(input@, r, spec_status_response(input@)),
{
    status_response(input)
}

} // verus!
