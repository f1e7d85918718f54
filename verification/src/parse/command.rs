//! The grammar of commands, one rule for each verb.
//!
//! A rule reads the keyword, in any mix of upper and lower case, and the
//! operands. The line ending is read by the caller of the rule.

use crate::parse::token::{
    agrees, language, lemma_skip_twice, line_text, number, optional, or_else, run_text, space,
    spec_as_text, spec_language, spec_line_text, spec_number, spec_run_text, spec_space, spec_tag,
    spec_tag_no_case, spec_take_while, spec_word, split, tag, tag_no_case, take_while, then,
    with_value, word, ByteClass, ParseError, Parsed,
};
use crate::text::as_text;
use crate::types::command::{Command, CommandView, Language, LanguageView};
use vstd::prelude::*;
use vstd::string::*;

verus! {

broadcast use lemma_skip_twice;

/// A keyword and the space that parts it from its operand.
pub open spec fn spec_keyword_space(s: Seq<u8>, keyword: Seq<char>) -> Parsed<()> {
    let head = spec_tag_no_case(s, keyword);
    with_value(then(head, spec_space(s.skip(head.used() as int))), ())
}

/// Reads what [`spec_keyword_space`] describes.
pub fn keyword_space<'a>(input: &'a [u8], keyword: &str) -> (r: Result<(&'a [u8], ()), ParseError>)
    ensures
        agrees(input@, r, spec_keyword_space(input@, keyword@)),
{
    let (rest, _) = tag_no_case(input, keyword)?;
    let (rest, _) = space(rest)?;
    Ok((rest, ()))
}

/// A keyword, a space and a number.
pub open spec fn spec_keyword_number(s: Seq<u8>, keyword: Seq<char>) -> Parsed<u32> {
    let head = spec_keyword_space(s, keyword);
    match then(head, spec_number(s.skip(head.used() as int))) {
        Parsed::Done((_, msg), n) => Parsed::Done(msg, n),
        failed => failed.failure(),
    }
}

/// Reads what [`spec_keyword_number`] describes.
pub fn keyword_number<'a>(input: &'a [u8], keyword: &str) -> (r: Result<
    (&'a [u8], u32),
    ParseError,
>)
    ensures
        agrees(input@, r, spec_keyword_number(input@, keyword@)),
{
    let (rest, _) = keyword_space(input, keyword)?;
    let (rest, msg) = number(rest)?;
    Ok((rest, msg))
}

/// A space and a number.
pub open spec fn spec_space_number(s: Seq<u8>) -> Parsed<u32> {
    let gap = spec_space(s);
    match then(gap, spec_number(s.skip(gap.used() as int))) {
        Parsed::Done((_, msg), n) => Parsed::Done(msg, n),
        failed => failed.failure(),
    }
}

/// A keyword, and a number after a space where there is one.
pub open spec fn spec_keyword_optional_number(s: Seq<u8>, keyword: Seq<char>) -> Parsed<
    Option<u32>,
> {
    let head = spec_tag_no_case(s, keyword);
    match then(head, optional(spec_space_number(s.skip(head.used() as int)))) {
        Parsed::Done((_, msg), n) => Parsed::Done(msg, n),
        failed => failed.failure(),
    }
}

fn keyword_optional_number<'a>(input: &'a [u8], keyword: &str) -> (r: Result<
    (&'a [u8], Option<u32>),
    ParseError,
>)
    ensures
        agrees(input@, r, spec_keyword_optional_number(input@, keyword@)),
{
    let (rest, _) = tag_no_case(input, keyword)?;
    match space(rest) {
        Ok((after, _)) => match number(after) {
            Ok((after, msg)) => Ok((after, Some(msg))),
            Err(ParseError::Incomplete) => Err(ParseError::Incomplete),
            Err(ParseError::Syntax) => Ok((rest, None)),
        },
        Err(ParseError::Incomplete) => Err(ParseError::Incomplete),
        Err(ParseError::Syntax) => Ok((rest, None)),
    }
}

// ----- USER, PASS -----
/// `USER`, one space, and the rest of the line as the name.
pub open spec fn spec_user(s: Seq<u8>) -> Parsed<CommandView> {
    let head = spec_keyword_space(s, "USER"@);
    match then(head, spec_line_text(s.skip(head.used() as int))) {
        Parsed::Done((_, name), n) => Parsed::Done(CommandView::User(name), n),
        failed => failed.failure(),
    }
}

/// Reads what [`spec_user`] describes.
pub fn user(input: &[u8]) -> (r: Result<(&[u8], Command), ParseError>)
    ensures
        agrees(input@, r, spec_user(input@)),
{
    let (rest, _) = keyword_space(input, "USER")?;
    let (rest, name) = line_text(rest)?;
    Ok((rest, Command::User(name.to_owned())))
}

/// `PASS`, one space, and the rest of the line as the password.
pub open spec fn spec_pass(s: Seq<u8>) -> Parsed<CommandView> {
    let head = spec_keyword_space(s, "PASS"@);
    match then(head, spec_line_text(s.skip(head.used() as int))) {
        Parsed::Done((_, pass), n) => Parsed::Done(CommandView::Pass(pass), n),
        failed => failed.failure(),
    }
}

/// Reads what [`spec_pass`] describes.
pub fn pass(input: &[u8]) -> (r: Result<(&[u8], Command), ParseError>)
    ensures
        agrees(input@, r, spec_pass(input@)),
{
    let (rest, _) = keyword_space(input, "PASS")?;
    let (rest, pass) = line_text(rest)?;
    Ok((rest, Command::Pass(pass.to_owned())))
}

// ----- the verbs without an operand -----
pub open spec fn spec_stat(s: Seq<u8>) -> Parsed<CommandView> {
    with_value(spec_tag_no_case(s, "STAT"@), CommandView::Stat)
}

/// Reads what [`spec_stat`] describes.
pub fn stat(input: &[u8]) -> (r: Result<(&[u8], Command), ParseError>)
    ensures
        agrees(input@, r, spec_stat(input@)),
{
    let (rest, _) = tag_no_case(input, "STAT")?;
    Ok((rest, Command::Stat))
}

pub open spec fn spec_noop(s: Seq<u8>) -> Parsed<CommandView> {
    with_value(spec_tag_no_case(s, "NOOP"@), CommandView::Noop)
}

/// Reads what [`spec_noop`] describes.
pub fn noop(input: &[u8]) -> (r: Result<(&[u8], Command), ParseError>)
    ensures
        agrees(input@, r, spec_noop(input@)),
{
    let (rest, _) = tag_no_case(input, "NOOP")?;
    Ok((rest, Command::Noop))
}

pub open spec fn spec_rset(s: Seq<u8>) -> Parsed<CommandView> {
    with_value(spec_tag_no_case(s, "RSET"@), CommandView::Rset)
}

/// Reads what [`spec_rset`] describes.
pub fn rset(input: &[u8]) -> (r: Result<(&[u8], Command), ParseError>)
    ensures
        agrees(input@, r, spec_rset(input@)),
{
    let (rest, _) = tag_no_case(input, "RSET")?;
    Ok((rest, Command::Rset))
}

pub open spec fn spec_quit(s: Seq<u8>) -> Parsed<CommandView> {
    with_value(spec_tag_no_case(s, "QUIT"@), CommandView::Quit)
}

/// Reads what [`spec_quit`] describes.
pub fn quit(input: &[u8]) -> (r: Result<(&[u8], Command), ParseError>)
    ensures
        agrees(input@, r, spec_quit(input@)),
{
    let (rest, _) = tag_no_case(input, "QUIT")?;
    Ok((rest, Command::Quit))
}

pub open spec fn spec_capa(s: Seq<u8>) -> Parsed<CommandView> {
    with_value(spec_tag_no_case(s, "CAPA"@), CommandView::Capa)
}

/// Reads what [`spec_capa`] describes.
pub fn capa(input: &[u8]) -> (r: Result<(&[u8], Command), ParseError>)
    ensures
        agrees(input@, r, spec_capa(input@)),
{
    let (rest, _) = tag_no_case(input, "CAPA")?;
    Ok((rest, Command::Capa))
}

pub open spec fn spec_stls(s: Seq<u8>) -> Parsed<CommandView> {
    with_value(spec_tag_no_case(s, "STLS"@), CommandView::Stls)
}

/// Reads what [`spec_stls`] describes.
pub fn stls(input: &[u8]) -> (r: Result<(&[u8], Command), ParseError>)
    ensures
        agrees(input@, r, spec_stls(input@)),
{
    let (rest, _) = tag_no_case(input, "STLS")?;
    Ok((rest, Command::Stls))
}

pub open spec fn spec_utf8(s: Seq<u8>) -> Parsed<CommandView> {
    with_value(spec_tag_no_case(s, "UTF8"@), CommandView::Utf8)
}

/// Reads what [`spec_utf8`] describes.
pub fn utf8(input: &[u8]) -> (r: Result<(&[u8], Command), ParseError>)
    ensures
        agrees(input@, r, spec_utf8(input@)),
{
    let (rest, _) = tag_no_case(input, "UTF8")?;
    Ok((rest, Command::Utf8))
}

// ----- the verbs with numbers -----
/// `LIST`, alone or with a message number.
pub open spec fn spec_list(s: Seq<u8>) -> Parsed<CommandView> {
    match spec_keyword_optional_number(s, "LIST"@) {
        Parsed::Done(Some(msg), n) => Parsed::Done(CommandView::List { msg }, n),
        Parsed::Done(None, n) => Parsed::Done(CommandView::ListAll, n),
        failed => failed.failure(),
    }
}

/// Reads what [`spec_list`] describes.
pub fn list(input: &[u8]) -> (r: Result<(&[u8], Command), ParseError>)
    ensures
        agrees(input@, r, spec_list(input@)),
{
    let (rest, maybe_msg) = keyword_optional_number(input, "LIST")?;
    Ok(
        (
            rest,
            match maybe_msg {
                Some(msg) => Command::List { msg },
                None => Command::ListAll,
            },
        ),
    )
}

/// `UIDL`, alone or with a message number.
pub open spec fn spec_uidl(s: Seq<u8>) -> Parsed<CommandView> {
    match spec_keyword_optional_number(s, "UIDL"@) {
        Parsed::Done(Some(msg), n) => Parsed::Done(CommandView::Uidl { msg }, n),
        Parsed::Done(None, n) => Parsed::Done(CommandView::UidlAll, n),
        failed => failed.failure(),
    }
}

/// Reads what [`spec_uidl`] describes.
pub fn uidl(input: &[u8]) -> (r: Result<(&[u8], Command), ParseError>)
    ensures
        agrees(input@, r, spec_uidl(input@)),
{
    let (rest, maybe_msg) = keyword_optional_number(input, "UIDL")?;
    Ok(
        (
            rest,
            match maybe_msg {
                Some(msg) => Command::Uidl { msg },
                None => Command::UidlAll,
            },
        ),
    )
}

/// `RETR` and a message number.
pub open spec fn spec_retr(s: Seq<u8>) -> Parsed<CommandView> {
    match spec_keyword_number(s, "RETR"@) {
        Parsed::Done(msg, n) => Parsed::Done(CommandView::Retr { msg }, n),
        failed => failed.failure(),
    }
}

/// Reads what [`spec_retr`] describes.
pub fn retr(input: &[u8]) -> (r: Result<(&[u8], Command), ParseError>)
    ensures
        agrees(input@, r, spec_retr(input@)),
{
    let (rest, msg) = keyword_number(input, "RETR")?;
    Ok((rest, Command::Retr { msg }))
}

/// `DELE` and a message number.
pub open spec fn spec_dele(s: Seq<u8>) -> Parsed<CommandView> {
    match spec_keyword_number(s, "DELE"@) {
        Parsed::Done(msg, n) => Parsed::Done(CommandView::Dele { msg }, n),
        failed => failed.failure(),
    }
}

/// Reads what [`spec_dele`] describes.
pub fn dele(input: &[u8]) -> (r: Result<(&[u8], Command), ParseError>)
    ensures
        agrees(input@, r, spec_dele(input@)),
{
    let (rest, msg) = keyword_number(input, "DELE")?;
    Ok((rest, Command::Dele { msg }))
}

/// `TOP`, a message number and a number of lines.
pub open spec fn spec_top(s: Seq<u8>) -> Parsed<CommandView> {
    let head = spec_keyword_number(s, "TOP"@);
    match then(head, spec_space_number(s.skip(head.used() as int))) {
        Parsed::Done((msg, n), used) => Parsed::Done(CommandView::Top { msg, n }, used),
        failed => failed.failure(),
    }
}

/// Reads what [`spec_top`] describes.
pub fn top(input: &[u8]) -> (r: Result<(&[u8], Command), ParseError>)
    ensures
        agrees(input@, r, spec_top(input@)),
{
    let (rest, msg) = keyword_number(input, "TOP")?;
    let (rest, _) = space(rest)?;
    let (rest, n) = number(rest)?;
    Ok((rest, Command::Top { msg, n }))
}

// ----- APOP -----
/// `APOP`, a space, the name up to the next space, that space, and the
/// rest of the line as the digest.
pub open spec fn spec_apop(s: Seq<u8>) -> Parsed<CommandView> {
    let head = spec_keyword_space(s, "APOP"@);
    let name = spec_run_text(s.skip(head.used() as int), ByteClass::NotSpace);
    let gap = spec_space(s.skip((head.used() + name.used()) as int));
    let digest = spec_line_text(s.skip((head.used() + name.used() + gap.used()) as int));
    match then(then(then(head, name), gap), digest) {
        Parsed::Done((((_, name), _), digest), n) => Parsed::Done(
            CommandView::Apop { name, digest },
            n,
        ),
        failed => failed.failure(),
    }
}

/// Reads what [`spec_apop`] describes.
pub fn apop(input: &[u8]) -> (r: Result<(&[u8], Command), ParseError>)
    ensures
        agrees(input@, r, spec_apop(input@)),
{
    let (rest, _) = keyword_space(input, "APOP")?;
    let (rest, name) = run_text(rest, ByteClass::NotSpace)?;
    let (rest, _) = space(rest)?;
    let (rest, digest) = line_text(rest)?;
    Ok((rest, Command::Apop { name: name.to_owned(), digest: digest.to_owned() }))
}

// ----- AUTH -----
/// The name of a SASL mechanism: one or more letters, digits, `-` or `_`.
pub open spec fn spec_auth_type(s: Seq<u8>) -> Parsed<Seq<char>> {
    spec_word(s, ByteClass::Mechanism)
}

/// Reads what [`spec_auth_type`] describes.
pub fn auth_type(input: &[u8]) -> (r: Result<(&[u8], &str), ParseError>)
    ensures
        agrees(input@, r, spec_auth_type(input@)),
{
    word(input, ByteClass::Mechanism)
}

/// The padding of a base64 token: `==`, `=` or nothing.
pub open spec fn spec_padding(s: Seq<u8>) -> Parsed<()> {
    with_value(optional(or_else(spec_tag(s, "=="@), spec_tag(s, "="@))), ())
}

/// A base64 token: zero or more bytes of the alphabet and the padding.
pub open spec fn spec_base64(s: Seq<u8>) -> Parsed<Seq<char>> {
    let body = spec_take_while(s, ByteClass::Base64);
    let padding = spec_padding(s.skip(body.used() as int));
    spec_as_text(
        match then(body, padding) {
            Parsed::Done(_, n) => Parsed::Done(s.take(n as int), n),
            failed => failed.failure(),
        },
    )
}

/// Reads what [`spec_base64`] describes.
pub fn base64(input: &[u8]) -> (r: Result<(&[u8], &str), ParseError>)
    ensures
        agrees(input@, r, spec_base64(input@)),
{
    let (rest, _) = take_while(input, ByteClass::Base64)?;
    let rest = match tag(rest, "==") {
        Ok((after, _)) => after,
        Err(ParseError::Incomplete) => {
            return Err(ParseError::Incomplete);
        },
        Err(ParseError::Syntax) => match tag(rest, "=") {
            Ok((after, _)) => after,
            Err(ParseError::Incomplete) => {
                return Err(ParseError::Incomplete);
            },
            Err(ParseError::Syntax) => rest,
        },
    };
    let (rest, token) = split(input, input.len() - rest.len());
    match as_text(token) {
        Some(text) => Ok((rest, text)),
        None => Err(ParseError::Syntax),
    }
}

/// An initial response: a base64 token, or a lone `=`.
pub open spec fn spec_initial_response(s: Seq<u8>) -> Parsed<Seq<char>> {
    or_else(spec_base64(s), with_value(spec_tag(s, "="@), "="@))
}

/// A space and an initial response.
pub open spec fn spec_space_initial_response(s: Seq<u8>) -> Parsed<Seq<char>> {
    let gap = spec_space(s);
    match then(gap, spec_initial_response(s.skip(gap.used() as int))) {
        Parsed::Done((_, response), n) => Parsed::Done(response, n),
        failed => failed.failure(),
    }
}

/// `AUTH` with a mechanism, and an initial response where there is one.
pub open spec fn spec_auth_with(s: Seq<u8>) -> Parsed<CommandView> {
    let head = spec_keyword_space(s, "AUTH"@);
    let mechanism = spec_auth_type(s.skip(head.used() as int));
    let response = optional(
        spec_space_initial_response(s.skip((head.used() + mechanism.used()) as int)),
    );
    match then(then(head, mechanism), response) {
        Parsed::Done(((_, mechanism), initial_response), n) => Parsed::Done(
            CommandView::Auth { mechanism, initial_response },
            n,
        ),
        failed => failed.failure(),
    }
}

/// `AUTH`: with a mechanism where one follows, and bare where that form
/// does not match.
pub open spec fn spec_auth(s: Seq<u8>) -> Parsed<CommandView> {
    or_else(spec_auth_with(s), with_value(spec_tag_no_case(s, "AUTH"@), CommandView::AuthAll))
}

fn initial_response(input: &[u8]) -> (r: Result<(&[u8], &str), ParseError>)
    ensures
        agrees(input@, r, spec_initial_response(input@)),
{
    match base64(input) {
        Err(ParseError::Syntax) => {
            let (rest, _) = tag(input, "=")?;
            Ok((rest, "="))
        },
        other => other,
    }
}

fn auth_with(input: &[u8]) -> (r: Result<(&[u8], Command), ParseError>)
    ensures
        agrees(input@, r, spec_auth_with(input@)),
{
    let (rest, _) = keyword_space(input, "AUTH")?;
    let (rest, mechanism) = auth_type(rest)?;
    let (rest, response) = match space(rest) {
        Ok((after, _)) => match initial_response(after) {
            Ok((after, response)) => (after, Some(response.to_owned())),
            Err(ParseError::Incomplete) => {
                return Err(ParseError::Incomplete);
            },
            Err(ParseError::Syntax) => (rest, None),
        },
        Err(ParseError::Incomplete) => {
            return Err(ParseError::Incomplete);
        },
        Err(ParseError::Syntax) => (rest, None),
    };
    Ok((rest, Command::Auth { mechanism: mechanism.to_owned(), initial_response: response }))
}

/// Reads what [`spec_auth`] describes.
pub fn auth(input: &[u8]) -> (r: Result<(&[u8], Command), ParseError>)
    ensures
        agrees(input@, r, spec_auth(input@)),
{
    match auth_with(input) {
        Err(ParseError::Syntax) => {
            let (rest, _) = tag_no_case(input, "AUTH")?;
            Ok((rest, Command::AuthAll))
        },
        other => other,
    }
}

// ----- LANG -----
/// The operand of LANG: `*`, or a language tag.
pub open spec fn spec_lang_or_wild(s: Seq<u8>) -> Parsed<LanguageView> {
    or_else(
        with_value(spec_tag(s, "*"@), LanguageView::Wild),
        match spec_language(s) {
            Parsed::Done(tag, n) => Parsed::Done(LanguageView::Lang(tag), n),
            failed => failed.failure(),
        },
    )
}

/// A space and the operand of LANG.
pub open spec fn spec_space_lang_or_wild(s: Seq<u8>) -> Parsed<LanguageView> {
    let gap = spec_space(s);
    match then(gap, spec_lang_or_wild(s.skip(gap.used() as int))) {
        Parsed::Done((_, operand), n) => Parsed::Done(operand, n),
        failed => failed.failure(),
    }
}

/// `LANG`, alone or with its operand.
pub open spec fn spec_lang(s: Seq<u8>) -> Parsed<CommandView> {
    let head = spec_tag_no_case(s, "LANG"@);
    match then(head, optional(spec_space_lang_or_wild(s.skip(head.used() as int)))) {
        Parsed::Done((_, Some(lang_or_wild)), n) => Parsed::Done(
            CommandView::Lang { lang_or_wild },
            n,
        ),
        Parsed::Done((_, None), n) => Parsed::Done(CommandView::LangAll, n),
        failed => failed.failure(),
    }
}

fn lang_or_wild(input: &[u8]) -> (r: Result<(&[u8], Language), ParseError>)
    ensures
        agrees(input@, r, spec_lang_or_wild(input@)),
{
    match tag(input, "*") {
        Ok((rest, _)) => Ok((rest, Language::Wild)),
        Err(ParseError::Incomplete) => Err(ParseError::Incomplete),
        Err(ParseError::Syntax) => {
            let (rest, tag) = language(input)?;
            Ok((rest, Language::Lang(tag.to_owned())))
        },
    }
}

/// Reads what [`spec_lang`] describes.
pub fn lang(input: &[u8]) -> (r: Result<(&[u8], Command), ParseError>)
    ensures
        agrees(input@, r, spec_lang(input@)),
{
    let (rest, _) = tag_no_case(input, "LANG")?;
    match space(rest) {
        Ok((after, _)) => match lang_or_wild(after) {
            Ok((after, lang_or_wild)) => Ok((after, Command::Lang { lang_or_wild })),
            Err(ParseError::Incomplete) => Err(ParseError::Incomplete),
            Err(ParseError::Syntax) => Ok((rest, Command::LangAll)),
        },
        Err(ParseError::Incomplete) => Err(ParseError::Incomplete),
        Err(ParseError::Syntax) => Ok((rest, Command::LangAll)),
    }
}

} // verus!
