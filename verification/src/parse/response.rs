//! The grammar of responses: status lines, listings and capabilities.

use crate::parse::command::{
    keyword_number, keyword_space, spec_keyword_number, spec_keyword_space,
};
use crate::parse::token::{
    after_items, agrees, byte, language, led_words, lemma_push_deep_view, lemma_skip_twice,
    line_ending, line_text, not_line_ending, number, optional, or_else, run_text, space,
    spec_as_text, spec_byte, spec_language, spec_led_words, spec_line_ending, spec_line_text,
    spec_number, spec_run_text, spec_space, spec_tag, spec_tag_no_case, spec_take_while_m_n,
    spec_word, tag, tag_no_case, take_while_m_n, then, with_value, word, ByteClass, ParseError,
    Parsed,
};
use crate::text::{as_text, lemma_encode_ascii};
use crate::types::response::{
    Capability, CapabilityView, DropListing, ExpirePolicy, LanguageListing, LanguageListingView,
    MultiLine, MultiLineView, Response, ScanListing, SingleLine, SingleLineView, UniqueIdListing,
    UniqueIdListingView,
};
use vstd::prelude::*;
use vstd::string::*;
use vstd::utf8::*;

verus! {

broadcast use lemma_skip_twice;

// ----- response codes -----
/// A response level: one or more bytes that are neither `/` nor `]`.
pub open spec fn spec_resp_level(s: Seq<u8>) -> Parsed<Seq<char>> {
    spec_word(s, ByteClass::Level)
}

/// Reads what [`spec_resp_level`] describes.
pub fn resp_level(input: &[u8]) -> (r: Result<(&[u8], &str), ParseError>)
    ensures
        agrees(input@, r, spec_resp_level(input@)),
{
    word(input, ByteClass::Level)
}

/// The levels after the first: each a `/` and a level. A `/` that no level
/// follows is left unread.
pub open spec fn spec_more_levels(s: Seq<u8>) -> Parsed<Seq<Seq<char>>> {
    spec_led_words(s, 0x2F, ByteClass::Level)
}

/// A response code: `[`, one or more levels with `/` between them, `]`.
pub open spec fn spec_resp_code(s: Seq<u8>) -> Parsed<Seq<Seq<char>>> {
    let open = spec_tag(s, "["@);
    let first = spec_resp_level(s.skip(open.used() as int));
    let more = spec_more_levels(s.skip((open.used() + first.used()) as int));
    let close = spec_tag(s.skip((open.used() + first.used() + more.used()) as int), "]"@);
    match then(then(then(open, first), more), close) {
        Parsed::Done((((_, first), more), _), n) => Parsed::Done(seq![first] + more, n),
        failed => failed.failure(),
    }
}

/// Reads what [`spec_resp_code`] describes.
pub fn resp_code(input: &[u8]) -> (r: Result<(&[u8], Vec<String>), ParseError>)
    ensures
        agrees(input@, r, spec_resp_code(input@)),
{
    let (rest, _) = tag(input, "[")?;
    let (rest, first) = resp_level(rest)?;
    let mut levels: Vec<String> = Vec::new();
    levels.push(first.to_owned());
    proof {
        assert(levels.deep_view() =~= seq![first@]);
    }
    let (rest, _) = led_words(rest, 0x2F, ByteClass::Level, &mut levels)?;
    let (rest, _) = tag(rest, "]")?;
    Ok((rest, levels))
}

// ----- timestamps -----
/// A timestamp: `<`, any bytes but `>`, and `>`. The value is the text
/// between the brackets.
pub open spec fn spec_timestamp(s: Seq<u8>) -> Parsed<Seq<char>> {
    let open = spec_tag(s, "<"@);
    let body = spec_run_text(s.skip(open.used() as int), ByteClass::NotGreater);
    let close = spec_tag(s.skip((open.used() + body.used()) as int), ">"@);
    match then(then(open, body), close) {
        Parsed::Done(((_, text), _), n) => Parsed::Done(text, n),
        failed => failed.failure(),
    }
}

/// Reads what [`spec_timestamp`] describes.
pub fn timestamp(input: &[u8]) -> (r: Result<(&[u8], &str), ParseError>)
    ensures
        agrees(input@, r, spec_timestamp(input@)),
{
    let (rest, _) = tag(input, "<")?;
    let (rest, text) = run_text(rest, ByteClass::NotGreater)?;
    let (rest, _) = tag(rest, ">")?;
    Ok((rest, text))
}

// ----- status lines -----
/// The status indicator of a response.
#[derive(Clone, Copy)]
pub enum Status {
    /// `+OK`
    Positive,
    /// `-ERR`
    Negative,
}

impl DeepView for Status {
    type V = Status;

    open spec fn deep_view(&self) -> Status {
        *self
    }
}

/// `+OK` or `-ERR`, in any mix of upper and lower case.
pub open spec fn spec_status(s: Seq<u8>) -> Parsed<Status> {
    or_else(
        with_value(spec_tag_no_case(s, "+OK"@), Status::Positive),
        with_value(spec_tag_no_case(s, "-ERR"@), Status::Negative),
    )
}

/// Reads what [`spec_status`] describes.
pub fn status(input: &[u8]) -> (r: Result<(&[u8], Status), ParseError>)
    ensures
        agrees(input@, r, spec_status(input@)),
{
    match tag_no_case(input, "+OK") {
        Ok((rest, _)) => Ok((rest, Status::Positive)),
        Err(ParseError::Incomplete) => Err(ParseError::Incomplete),
        Err(ParseError::Syntax) => {
            let (rest, _) = tag_no_case(input, "-ERR")?;
            Ok((rest, Status::Negative))
        },
    }
}

/// A response code, a space and the rest of the line.
pub open spec fn spec_coded_text(s: Seq<u8>) -> Parsed<(Seq<Seq<char>>, Seq<char>)> {
    let code = spec_resp_code(s);
    let gap = spec_space(s.skip(code.used() as int));
    let comment = spec_line_text(s.skip((code.used() + gap.used()) as int));
    match then(then(code, gap), comment) {
        Parsed::Done(((code, _), comment), n) => Parsed::Done((code, comment), n),
        failed => failed.failure(),
    }
}

/// The text of a status line: a response code, a space and the rest of the
/// line; or, where that does not match, a comment of bytes that are not `[`.
pub open spec fn spec_status_text(s: Seq<u8>) -> Parsed<(Seq<Seq<char>>, Seq<char>)> {
    or_else(
        spec_coded_text(s),
        match spec_run_text(s, ByteClass::Status) {
            Parsed::Done(comment, n) => Parsed::Done((Seq::empty(), comment), n),
            failed => failed.failure(),
        },
    )
}

/// What follows the status indicator: a space and the text, or nothing.
#[verifier::opaque]
pub open spec fn spec_head(s: Seq<u8>) -> Parsed<SingleLineView> {
    let gap = spec_space(s);
    match optional(then(gap, spec_status_text(s.skip(gap.used() as int)))) {
        Parsed::Done(Some((_, (code, comment))), n) => Parsed::Done(
            SingleLineView { code, comment },
            n,
        ),
        Parsed::Done(None, n) => Parsed::Done(
            SingleLineView { code: Seq::empty(), comment: Seq::empty() },
            n,
        ),
        failed => failed.failure(),
    }
}

fn coded_text(input: &[u8]) -> (r: Result<(&[u8], SingleLine), ParseError>)
    ensures
        match spec_coded_text(input@) {
            Parsed::Done((code, comment), n) => agrees(
                input@,
                r,
                Parsed::Done(SingleLineView { code, comment }, n),
            ),
            failed => agrees(input@, r, failed.failure()),
        },
{
    let (rest, code) = resp_code(input)?;
    let (rest, _) = space(rest)?;
    let (rest, comment) = line_text(rest)?;
    Ok((rest, SingleLine { code, comment: comment.to_owned() }))
}

fn status_text(input: &[u8]) -> (r: Result<(&[u8], SingleLine), ParseError>)
    ensures
        match spec_status_text(input@) {
            Parsed::Done((code, comment), n) => agrees(
                input@,
                r,
                Parsed::Done(SingleLineView { code, comment }, n),
            ),
            failed => agrees(input@, r, failed.failure()),
        },
{
    match coded_text(input) {
        Err(ParseError::Syntax) => {
            let (rest, comment) = run_text(input, ByteClass::Status)?;
            let code: Vec<String> = Vec::new();
            proof {
                assert(code.deep_view() =~= Seq::<Seq<char>>::empty());
            }
            Ok((rest, SingleLine { code, comment: comment.to_owned() }))
        },
        other => other,
    }
}

/// Reads what [`spec_head`] describes.
pub fn head(input: &[u8]) -> (r: Result<(&[u8], SingleLine), ParseError>)
    ensures
        agrees(input@, r, spec_head(input@)),
{
    reveal(spec_head);
    let absent = SingleLine { code: Vec::new(), comment: String::new() };
    proof {
        assert(absent.code.deep_view() =~= Seq::<Seq<char>>::empty());
        assert(input@.skip(0) =~= input@);
    }
    match space(input) {
        Ok((after, _)) => match status_text(after) {
            Ok((after, line)) => Ok((after, line)),
            Err(ParseError::Incomplete) => Err(ParseError::Incomplete),
            Err(ParseError::Syntax) => Ok((input, absent)),
        },
        Err(ParseError::Incomplete) => Err(ParseError::Incomplete),
        Err(ParseError::Syntax) => Ok((input, absent)),
    }
}

// ----- listings -----
/// Two numbers with one space between them.
pub open spec fn spec_number_pair(s: Seq<u8>) -> Parsed<(u32, u32)> {
    let first = spec_number(s);
    let gap = spec_space(s.skip(first.used() as int));
    let second = spec_number(s.skip((first.used() + gap.used()) as int));
    match then(then(first, gap), second) {
        Parsed::Done(((a, _), b), n) => Parsed::Done((a, b), n),
        failed => failed.failure(),
    }
}

fn number_pair(input: &[u8]) -> (r: Result<(&[u8], (u32, u32)), ParseError>)
    ensures
        agrees(input@, r, spec_number_pair(input@)),
{
    let (rest, first) = number(input)?;
    let (rest, _) = space(rest)?;
    let (rest, second) = number(rest)?;
    Ok((rest, (first, second)))
}

/// The payload of STAT: the number of messages and the size of the maildrop.
pub open spec fn spec_drop_listing(s: Seq<u8>) -> Parsed<DropListing> {
    match spec_number_pair(s) {
        Parsed::Done((message_count, maildrop_size), n) => Parsed::Done(
            DropListing { message_count, maildrop_size },
            n,
        ),
        failed => failed.failure(),
    }
}

/// Reads what [`spec_drop_listing`] describes.
pub fn drop_listing(input: &[u8]) -> (r: Result<(&[u8], DropListing), ParseError>)
    ensures
        agrees(input@, r, spec_drop_listing(input@)),
{
    let (rest, (message_count, maildrop_size)) = number_pair(input)?;
    Ok((rest, DropListing { message_count, maildrop_size }))
}

/// A line of LIST: the number of a message and its size.
pub open spec fn spec_scan_listing(s: Seq<u8>) -> Parsed<ScanListing> {
    match spec_number_pair(s) {
        Parsed::Done((message_id, message_size), n) => Parsed::Done(
            ScanListing { message_id, message_size },
            n,
        ),
        failed => failed.failure(),
    }
}

/// Reads what [`spec_scan_listing`] describes.
pub fn scan_listing(input: &[u8]) -> (r: Result<(&[u8], ScanListing), ParseError>)
    ensures
        agrees(input@, r, spec_scan_listing(input@)),
{
    let (rest, (message_id, message_size)) = number_pair(input)?;
    Ok((rest, ScanListing { message_id, message_size }))
}

/// A unique id: one to seventy bytes of `%x21-7E`.
pub open spec fn spec_unique_id(s: Seq<u8>) -> Parsed<Seq<char>> {
    spec_as_text(spec_take_while_m_n(s, 1, 70, ByteClass::UniqueId))
}

/// A line of UIDL: the number of a message, a space and its unique id.
pub open spec fn spec_unique_id_listing(s: Seq<u8>) -> Parsed<UniqueIdListingView> {
    let id = spec_number(s);
    let gap = spec_space(s.skip(id.used() as int));
    let uid = spec_unique_id(s.skip((id.used() + gap.used()) as int));
    match then(then(id, gap), uid) {
        Parsed::Done(((message_id, _), message_uid), n) => Parsed::Done(
            UniqueIdListingView { message_id, message_uid },
            n,
        ),
        failed => failed.failure(),
    }
}

/// Reads what [`spec_unique_id_listing`] describes.
pub fn unique_id_listing(input: &[u8]) -> (r: Result<(&[u8], UniqueIdListing), ParseError>)
    ensures
        agrees(input@, r, spec_unique_id_listing(input@)),
{
    let (rest, message_id) = number(input)?;
    let (rest, _) = space(rest)?;
    let (rest, bytes) = take_while_m_n(rest, 1, 70, ByteClass::UniqueId)?;
    match as_text(bytes) {
        Some(uid) => Ok((rest, UniqueIdListing { message_id, message_uid: uid.to_owned() })),
        None => Err(ParseError::Syntax),
    }
}

/// A line of the LANG listing: a language tag, a space and the rest of the
/// line as the description.
pub open spec fn spec_language_listing(s: Seq<u8>) -> Parsed<LanguageListingView> {
    let tag = spec_language(s);
    let gap = spec_space(s.skip(tag.used() as int));
    let description = spec_line_text(s.skip((tag.used() + gap.used()) as int));
    match then(then(tag, gap), description) {
        Parsed::Done(((tag, _), description), n) => Parsed::Done(
            LanguageListingView { tag, description },
            n,
        ),
        failed => failed.failure(),
    }
}

/// Reads what [`spec_language_listing`] describes.
pub fn language_listing(input: &[u8]) -> (r: Result<(&[u8], LanguageListing), ParseError>)
    ensures
        agrees(input@, r, spec_language_listing(input@)),
{
    let (rest, tag) = language(input)?;
    let (rest, _) = space(rest)?;
    let (rest, description) = line_text(rest)?;
    Ok((rest, LanguageListing { tag: tag.to_owned(), description: description.to_owned() }))
}

// ----- single-line responses -----
/// The rule for the text after the status indicator, as a function.
pub open spec fn head_rule() -> spec_fn(Seq<u8>) -> Parsed<SingleLineView> {
    |s: Seq<u8>| spec_head(s)
}

/// An executable line parser implements a rule: whatever it returns on an
/// input is what the rule says of that input.
pub open spec fn implements<T: DeepView, P: Fn(&[u8]) -> Result<(&[u8], T), ParseError>>(
    parser: P,
    rule: spec_fn(Seq<u8>) -> Parsed<T::V>,
) -> bool {
    forall|i: &[u8], r: Result<(&[u8], T), ParseError>| #[trigger]
        call_ensures(parser, (i,), r) ==> agrees(i@, r, rule(i@))
}

/// A negative response: `-ERR` is read already; the optional text and
/// the line ending follow.
pub open spec fn spec_negative<V>(s: Seq<u8>) -> Parsed<Response<V, SingleLineView>> {
    let line = spec_head(s);
    match then(line, spec_line_ending(s.skip(line.used() as int))) {
        Parsed::Done((line, _), n) => Parsed::Done(Response::Negative(line), n),
        failed => failed.failure(),
    }
}

/// A positive response: `+OK` is read already; the payload follows, after
/// one space where `payload_required` is set, and then the line ending.
pub open spec fn spec_positive<V>(
    rule: spec_fn(Seq<u8>) -> Parsed<V>,
    payload_required: bool,
    s: Seq<u8>,
) -> Parsed<Response<V, SingleLineView>> {
    let gap = if payload_required {
        spec_space(s)
    } else {
        Parsed::Done((), 0)
    };
    let payload = rule(s.skip(gap.used() as int));
    let end = spec_line_ending(s.skip((gap.used() + payload.used()) as int));
    match then(then(gap, payload), end) {
        Parsed::Done(((_, payload), _), n) => Parsed::Done(Response::Positive(payload), n),
        failed => failed.failure(),
    }
}

/// A single-line response: the status indicator, and what the status asks
/// for. A negative response never holds a payload: it is read as a status
/// line whatever `rule` and `payload_required` are.
pub open spec fn spec_single_line<V>(
    rule: spec_fn(Seq<u8>) -> Parsed<V>,
    payload_required: bool,
    s: Seq<u8>,
) -> Parsed<Response<V, SingleLineView>> {
    let status = spec_status(s);
    let rest = s.skip(status.used() as int);
    match status {
        Parsed::Done(Status::Positive, n) => match spec_positive(rule, payload_required, rest) {
            Parsed::Done(response, m) => Parsed::Done(response, n + m),
            failed => failed,
        },
        Parsed::Done(Status::Negative, n) => match spec_negative(rest) {
            Parsed::Done(response, m) => Parsed::Done(response, n + m),
            failed => failed,
        },
        failed => failed.failure(),
    }
}

/// What a positive response comes to once the payload parser has returned
/// `payload` on what follows the status indicator, and the space where one is
/// required: its failure, or its value and the rest after the line ending.
pub open spec fn finished<T>(
    payload: Result<(&[u8], T), ParseError>,
    r: Result<(&[u8], Response<T, SingleLine>), ParseError>,
) -> bool {
    match payload {
        Ok((after, value)) => match spec_line_ending(after@) {
            Parsed::Done(_, n) => r matches Ok((rest, Response::Positive(found))) && found == value
                && rest@ == after@.skip(n as int),
            Parsed::Incomplete => r == Err::<(&[u8], Response<T, SingleLine>), ParseError>(
                ParseError::Incomplete,
            ),
            Parsed::Invalid => r == Err::<(&[u8], Response<T, SingleLine>), ParseError>(
                ParseError::Syntax,
            ),
        },
        Err(e) => r == Err::<(&[u8], Response<T, SingleLine>), ParseError>(e),
    }
}

/// A positive response, for any payload parser: the parser is called on
/// what follows the status indicator, and the space where one is required,
/// and the response is what that call comes to.
pub open spec fn calls_for_payload<T, P: Fn(&[u8]) -> Result<(&[u8], T), ParseError>>(
    parser: P,
    payload_required: bool,
    s: Seq<u8>,
    r: Result<(&[u8], Response<T, SingleLine>), ParseError>,
) -> bool {
    if payload_required && !(spec_space(s) is Done) {
        r == Err::<(&[u8], Response<T, SingleLine>), ParseError>(
            if spec_space(s) is Incomplete {
                ParseError::Incomplete
            } else {
                ParseError::Syntax
            },
        )
    } else {
        exists|i: &[u8], payload: Result<(&[u8], T), ParseError>|
            {
                &&& i@ == s.skip(
                    if payload_required {
                        1int
                    } else {
                        0int
                    },
                )
                &&& #[trigger] call_ensures(parser, (i,), payload)
                &&& finished(payload, r)
            }
    }
}

fn negative<T: DeepView>(input: &[u8]) -> (r: Result<(&[u8], Response<T, SingleLine>), ParseError>)
    ensures
        agrees(input@, r, spec_negative::<T::V>(input@)),
{
    let (rest, line) = head(input)?;
    let (rest, _) = line_ending(rest)?;
    Ok((rest, Response::Negative(line)))
}

fn positive<T: DeepView, P: Fn(&[u8]) -> Result<(&[u8], T), ParseError>>(
    input: &[u8],
    parser: P,
    payload_required: bool,
) -> (r: Result<(&[u8], Response<T, SingleLine>), ParseError>)
    requires
        forall|i: &[u8]| call_requires(parser, (i,)),
    ensures
        forall|rule: spec_fn(Seq<u8>) -> Parsed<T::V>| #[trigger]
            implements(parser, rule) ==> agrees(
                input@,
                r,
                spec_positive(rule, payload_required, input@),
            ),
        calls_for_payload(parser, payload_required, input@, r),
{
    let rest = if payload_required {
        match space(input) {
            Ok((after, _)) => after,
            Err(e) => {
                return Err(e);
            },
        }
    } else {
        proof {
            assert(input@.skip(0) =~= input@);
        }
        input
    };
    let payload = parser(rest);
    let r = match payload {
        Ok((after, value)) => match line_ending(after) {
            Ok((after, _)) => Ok((after, Response::Positive(value))),
            Err(e) => Err(e),
        },
        Err(e) => Err(e),
    };
    proof {
        assert(call_ensures(parser, (rest,), payload) && finished(payload, r));
    }
    r
}

/// Parses a single-line response. `parser` reads the payload of a positive
/// response; a negative response is read as a status line.
pub fn single_line<T: DeepView, P: Fn(&[u8]) -> Result<(&[u8], T), ParseError>>(
    input: &[u8],
    parser: P,
    payload_required: bool,
) -> (r: Result<(&[u8], Response<T, SingleLine>), ParseError>)
    requires
        forall|i: &[u8]| call_requires(parser, (i,)),
    ensures
        forall|rule: spec_fn(Seq<u8>) -> Parsed<T::V>| #[trigger]
            implements(parser, rule) ==> agrees(
                input@,
                r,
                spec_single_line(rule, payload_required, input@),
            ),
        spec_status(input@) matches Parsed::Done(Status::Negative, n) ==> agrees(
            input@,
            r,
            match spec_negative::<T::V>(input@.skip(n as int)) {
                Parsed::Done(response, m) => Parsed::Done(response, n + m),
                failed => failed,
            },
        ),
        !(spec_status(input@) is Done) ==> agrees(
            input@,
            r,
            spec_status(input@).failure::<Response<T::V, SingleLineView>>(),
        ),
        spec_status(input@) matches Parsed::Done(Status::Positive, n) ==> calls_for_payload(
            parser,
            payload_required,
            input@.skip(n as int),
            r,
        ),
{
    let (rest, status) = status(input)?;
    match status {
        Status::Positive => positive(rest, parser, payload_required),
        Status::Negative => negative(rest),
    }
}

// ----- multi-line responses -----
/// The line that ends a body: a lone `.` and a line ending.
pub open spec fn spec_terminator(s: Seq<u8>) -> Parsed<()> {
    let dot = spec_byte(s, 0x2E);
    with_value(then(dot, spec_line_ending(s.skip(dot.used() as int))), ())
}

/// One line of a body: what the rule reads, and the line ending after it.
/// Where `own_ending` is set, the rule reads the line ending itself.
pub open spec fn spec_line_of<V>(
    rule: spec_fn(Seq<u8>) -> Parsed<V>,
    own_ending: bool,
    s: Seq<u8>,
) -> Parsed<V> {
    let item = rule(s);
    if own_ending {
        item
    } else {
        match then(item, spec_line_ending(s.skip(item.used() as int))) {
            Parsed::Done((item, _), n) => Parsed::Done(item, n),
            failed => failed.failure(),
        }
    }
}

/// The body of a positive multi-line response: lines, up to the line that
/// is a lone `.`, which ends the body and is read with it. Each line is
/// first held against the terminating line, and only a line that is not the
/// terminating line is handed to the rule: so the body ends at the first lone
/// `.` whatever the rule would make of it, and a line that the rule refuses is
/// a syntax error.
pub open spec fn spec_body<V>(
    rule: spec_fn(Seq<u8>) -> Parsed<V>,
    own_ending: bool,
    s: Seq<u8>,
) -> Parsed<Seq<V>>
    decreases s.len(),
{
    match spec_terminator(s) {
        Parsed::Done(_, n) => Parsed::Done(Seq::empty(), n),
        Parsed::Incomplete => Parsed::Incomplete,
        Parsed::Invalid => match spec_line_of(rule, own_ending, s) {
            Parsed::Done(item, n) => if 0 < n <= s.len() {
                after_items(seq![item], n, spec_body(rule, own_ending, s.skip(n as int)))
            } else {
                Parsed::Invalid
            },
            failed => failed.failure(),
        },
    }
}

/// The status line that opens a multi-line response.
pub open spec fn spec_status_line(s: Seq<u8>) -> Parsed<Response<SingleLineView, SingleLineView>> {
    spec_single_line(head_rule(), false, s)
}

/// A status line and, where it is positive, a body. A negative response
/// ends with its status line.
pub open spec fn spec_listing<V>(
    rule: spec_fn(Seq<u8>) -> Parsed<V>,
    own_ending: bool,
    s: Seq<u8>,
) -> Parsed<Response<MultiLineView<V>, SingleLineView>> {
    match spec_status_line(s) {
        Parsed::Done(Response::Positive(head), n) => match spec_body(
            rule,
            own_ending,
            s.skip(n as int),
        ) {
            Parsed::Done(body, m) => Parsed::Done(
                Response::Positive(MultiLineView { head, body }),
                n + m,
            ),
            failed => failed.failure(),
        },
        Parsed::Done(Response::Negative(head), n) => Parsed::Done(Response::Negative(head), n),
        failed => failed.failure(),
    }
}

/// A multi-line response whose rule reads a line without its line ending.
pub open spec fn spec_multi_line<V>(rule: spec_fn(Seq<u8>) -> Parsed<V>, s: Seq<u8>) -> Parsed<
    Response<MultiLineView<V>, SingleLineView>,
> {
    spec_listing(rule, false, s)
}

/// What one attempt to read a line of a body comes to.
pub enum Step<T> {
    /// A line was read: its value, and what is left after its line ending.
    Line(T, Seq<u8>),
    /// The attempt failed, and the response with it.
    Failed(ParseError),
}

/// What an attempt at `at` comes to once the line parser has returned
/// `found`: unless the parser reads line endings itself, a line ending is
/// read after what it has read; and the line counts where at least one byte
/// was read.
pub open spec fn step_of<T>(
    at: Seq<u8>,
    own_ending: bool,
    found: Result<(&[u8], T), ParseError>,
) -> Step<T> {
    match found {
        Ok((after, value)) => {
            let end = if own_ending {
                Parsed::Done((), 0)
            } else {
                spec_line_ending(after@)
            };
            match end {
                Parsed::Done(_, n) => if after@.len() - n < at.len() {
                    Step::Line(value, after@.skip(n as int))
                } else {
                    Step::Failed(ParseError::Syntax)
                },
                Parsed::Incomplete => Step::Failed(ParseError::Incomplete),
                Parsed::Invalid => Step::Failed(ParseError::Syntax),
            }
        },
        Err(e) => Step::Failed(e),
    }
}

/// One attempt to read a line at `at`, for any line parser: `at` does not
/// begin with the terminating line, the parser is called on `at`, and `step`
/// is what its result comes to.
pub open spec fn attempts<T, P: Fn(&[u8]) -> Result<(&[u8], T), ParseError>>(
    parser: P,
    own_ending: bool,
    at: Seq<u8>,
    step: Step<T>,
) -> bool {
    &&& spec_terminator(at) is Invalid
    &&& exists|i: &[u8], found: Result<(&[u8], T), ParseError>|
        i@ == at && #[trigger] call_ensures(parser, (i,), found) && step == step_of(
            at,
            own_ending,
            found,
        )
}

/// The lines `items` were read one after the other, from `from` up to `to`.
pub open spec fn reads_lines<T, P: Fn(&[u8]) -> Result<(&[u8], T), ParseError>>(
    parser: P,
    own_ending: bool,
    from: Seq<u8>,
    items: Seq<T>,
    to: Seq<u8>,
) -> bool
    decreases items.len(),
{
    if items.len() == 0 {
        to == from
    } else {
        exists|at: Seq<u8>|
            reads_lines(parser, own_ending, from, items.drop_last(), at) && #[trigger] attempts(
                parser,
                own_ending,
                at,
                Step::Line(items.last(), to),
            )
    }
}

/// The body of a positive multi-line response, for any line parser: lines
/// were read one after the other up to a place where the terminating line
/// stands, or may yet come to stand, or where the attempt to read one more
/// line failed.
pub open spec fn calls_for_body<T, P: Fn(&[u8]) -> Result<(&[u8], T), ParseError>>(
    parser: P,
    own_ending: bool,
    s: Seq<u8>,
    r: Result<(&[u8], Vec<T>), ParseError>,
) -> bool {
    exists|items: Seq<T>, at: Seq<u8>|
        #![trigger reads_lines(parser, own_ending, s, items, at)]
        {
            &&& reads_lines(parser, own_ending, s, items, at)
            &&& match spec_terminator(at) {
                Parsed::Done(_, n) => r matches Ok((rest, body)) && body@ == items && rest@
                    == at.skip(n as int),
                Parsed::Incomplete => r == Err::<(&[u8], Vec<T>), ParseError>(
                    ParseError::Incomplete,
                ),
                Parsed::Invalid => r matches Err(e) && attempts(
                    parser,
                    own_ending,
                    at,
                    Step::<T>::Failed(e),
                ),
            }
        }
}

/// One more line after the lines that were read.
proof fn lemma_reads_one_more<T, P: Fn(&[u8]) -> Result<(&[u8], T), ParseError>>(
    parser: P,
    own_ending: bool,
    from: Seq<u8>,
    items: Seq<T>,
    at: Seq<u8>,
    item: T,
    to: Seq<u8>,
)
    requires
        reads_lines(parser, own_ending, from, items, at),
        attempts(parser, own_ending, at, Step::Line(item, to)),
    ensures
        reads_lines(parser, own_ending, from, items.push(item), to),
{
    let all = items.push(item);
    assert(all.drop_last() =~= items);
    assert(all.last() == item);
    assert(attempts(parser, own_ending, at, Step::Line(all.last(), to)));
}

/// Reads what [`spec_terminator`] describes.
pub fn terminator(input: &[u8]) -> (r: Result<(&[u8], ()), ParseError>)
    ensures
        agrees(input@, r, spec_terminator(input@)),
{
    let (rest, _) = byte(input, 0x2E)?;
    let (rest, _) = line_ending(rest)?;
    Ok((rest, ()))
}

/// What a line comes to once the line parser has returned `found`: its
/// failure, or its value and what is left after the line ending.
pub open spec fn line_comes_to<T>(
    own_ending: bool,
    found: Result<(&[u8], T), ParseError>,
    r: Result<(&[u8], T), ParseError>,
) -> bool {
    match found {
        Ok((after, value)) => if own_ending {
            r matches Ok((rest, item)) && item == value && rest@ == after@
        } else {
            match spec_line_ending(after@) {
                Parsed::Done(_, n) => r matches Ok((rest, item)) && item == value && rest@
                    == after@.skip(n as int),
                Parsed::Incomplete => r == Err::<(&[u8], T), ParseError>(ParseError::Incomplete),
                Parsed::Invalid => r == Err::<(&[u8], T), ParseError>(ParseError::Syntax),
            }
        },
        Err(e) => r == Err::<(&[u8], T), ParseError>(e),
    }
}

/// One line of a body: the parser, and the line ending after it unless the
/// parser reads it itself.
fn line_of<'a, T: DeepView, P: Fn(&[u8]) -> Result<(&[u8], T), ParseError>>(
    input: &'a [u8],
    parser: &P,
    own_ending: bool,
) -> (r: Result<(&'a [u8], T), ParseError>)
    requires
        forall|i: &[u8]| call_requires(*parser, (i,)),
    ensures
        forall|rule: spec_fn(Seq<u8>) -> Parsed<T::V>| #[trigger]
            implements(*parser, rule) ==> agrees(
                input@,
                r,
                spec_line_of(rule, own_ending, input@),
            ),
        exists|found: Result<(&[u8], T), ParseError>| #[trigger]
            call_ensures(*parser, (input,), found) && line_comes_to(own_ending, found, r),
{
    let found = parser(input);
    let r = match found {
        Ok((after_item, item)) => if own_ending {
            Ok((after_item, item))
        } else {
            match line_ending(after_item) {
                Ok((after, _)) => Ok((after, item)),
                Err(e) => Err(e),
            }
        },
        Err(e) => Err(e),
    };
    proof {
        assert(call_ensures(*parser, (input,), found) && line_comes_to(own_ending, found, r));
    }
    r
}

/// A line that was read is one attempt that came to a line.
proof fn lemma_attempt<T, P: Fn(&[u8]) -> Result<(&[u8], T), ParseError>>(
    parser: P,
    own_ending: bool,
    at: &[u8],
    r: Result<(&[u8], T), ParseError>,
)
    requires
        spec_terminator(at@) is Invalid,
        exists|found: Result<(&[u8], T), ParseError>| #[trigger]
            call_ensures(parser, (at,), found) && line_comes_to(own_ending, found, r),
    ensures
        r matches Ok((rest, item)) ==> attempts(
            parser,
            own_ending,
            at@,
            if rest@.len() < at@.len() {
                Step::Line(item, rest@)
            } else {
                Step::Failed(ParseError::Syntax)
            },
        ),
        r matches Err(e) ==> attempts(parser, own_ending, at@, Step::<T>::Failed(e)),
{
    let found = choose|found: Result<(&[u8], T), ParseError>| #[trigger]
        call_ensures(parser, (at,), found) && line_comes_to(own_ending, found, r);
    let step = step_of(at@, own_ending, found);
    assert(call_ensures(parser, (at,), found) && step == step_of(at@, own_ending, found));
    if let Ok((after, value)) = found {
        if own_ending {
            assert(after@.skip(0) =~= after@);
        }
    }
}

/// The body from a line on: that line, and the body after it.
proof fn lemma_body_goes_on<V>(
    rule: spec_fn(Seq<u8>) -> Parsed<V>,
    own_ending: bool,
    before: Seq<V>,
    used: nat,
    s: Seq<u8>,
    whole: Parsed<Seq<V>>,
)
    requires
        spec_terminator(s) is Invalid,
        spec_line_of(rule, own_ending, s) matches Parsed::Done(_, n) && 0 < n <= s.len(),
        whole == after_items(before, used, spec_body(rule, own_ending, s)),
    ensures
        ({
            let item = spec_line_of(rule, own_ending, s)->Done_0;
            let n = spec_line_of(rule, own_ending, s).used();
            whole == after_items(
                before.push(item),
                used + n,
                spec_body(rule, own_ending, s.skip(n as int)),
            )
        }),
{
    let item = spec_line_of(rule, own_ending, s)->Done_0;
    let n = spec_line_of(rule, own_ending, s).used();
    let tail = spec_body(rule, own_ending, s.skip(n as int));
    if tail is Done {
        assert(before + (seq![item] + tail->Done_0) =~= before.push(item) + tail->Done_0);
    }
}

/// Reads what [`spec_body`] describes: at each line the terminating line
/// is tried first, and the parser only where that line is refused.
fn body<'a, T: DeepView, P: Fn(&[u8]) -> Result<(&[u8], T), ParseError>>(
    input: &'a [u8],
    parser: P,
    own_ending: bool,
) -> (r: Result<(&'a [u8], Vec<T>), ParseError>)
    requires
        forall|i: &[u8]| call_requires(parser, (i,)),
    ensures
        forall|rule: spec_fn(Seq<u8>) -> Parsed<T::V>| #[trigger]
            implements(parser, rule) ==> agrees(input@, r, spec_body(rule, own_ending, input@)),
        calls_for_body(parser, own_ending, input@, r),
{
    let mut items: Vec<T> = Vec::new();
    let mut rest = input;
    proof {
        assert(items.deep_view() =~= Seq::<T::V>::empty());
        assert(input@.skip(0) =~= input@);
        assert forall|rule: spec_fn(Seq<u8>) -> Parsed<T::V>| #[trigger]
            implements(parser, rule) implies spec_body(rule, own_ending, input@) == after_items(
            items.deep_view(),
            0,
            spec_body(rule, own_ending, rest@),
        ) by {
            let p = spec_body(rule, own_ending, input@);
            if p is Done {
                assert(items.deep_view() + p->Done_0 =~= p->Done_0);
            }
        }
    }
    loop
        invariant
            forall|i: &[u8]| call_requires(parser, (i,)),
            rest@.len() <= input@.len(),
            reads_lines(parser, own_ending, input@, items@, rest@),
            forall|rule: spec_fn(Seq<u8>) -> Parsed<T::V>| #[trigger]
                implements(parser, rule) ==> {
                    &&& rest@ == input@.skip(input@.len() - rest@.len())
                    &&& spec_body(rule, own_ending, input@) == after_items(
                        items.deep_view(),
                        (input@.len() - rest@.len()) as nat,
                        spec_body(rule, own_ending, rest@),
                    )
                },
        decreases rest@.len(),
    {
        proof {
            assert(items.deep_view() + Seq::<T::V>::empty() =~= items.deep_view());
        }
        match terminator(rest) {
            Ok((after, _)) => {
                return Ok((after, items));
            },
            Err(ParseError::Incomplete) => {
                return Err(ParseError::Incomplete);
            },
            Err(ParseError::Syntax) => {},
        }
        let read = line_of(rest, &parser, own_ending);
        proof {
            lemma_attempt(parser, own_ending, rest, read);
        }
        let (after, item) = match read {
            Ok(found) => found,
            Err(e) => {
                return Err(e);
            },
        };
        if after.len() >= rest.len() {
            return Err(ParseError::Syntax);
        }
        let ghost before = items;
        items.push(item);
        proof {
            lemma_reads_one_more(parser, own_ending, input@, before@, rest@, item, after@);
            lemma_push_deep_view(before, items, item);
            assert forall|rule: spec_fn(Seq<u8>) -> Parsed<T::V>| #[trigger]
                implements(parser, rule) implies {
                &&& after@ == input@.skip(input@.len() - after@.len())
                &&& spec_body(rule, own_ending, input@) == after_items(
                    items.deep_view(),
                    (input@.len() - after@.len()) as nat,
                    spec_body(rule, own_ending, after@),
                )
            } by {
                lemma_body_goes_on(
                    rule,
                    own_ending,
                    before.deep_view(),
                    (input@.len() - rest@.len()) as nat,
                    rest@,
                    spec_body(rule, own_ending, input@),
                );
            }
        }
        rest = after;
    }
}

/// Parses a status line and, where it is positive, a body of lines up to
/// the line that is a lone `.`. `parser` reads one line of the body; where
/// `own_ending` is set it reads the line ending too, and where it is not, the
/// line ending is read after it. A line that is a lone `.` ends the body and
/// is never handed to `parser`.
pub fn listing<T: DeepView, P: Fn(&[u8]) -> Result<(&[u8], T), ParseError>>(
    input: &[u8],
    parser: P,
    own_ending: bool,
) -> (r: Result<(&[u8], Response<MultiLine<T>, SingleLine>), ParseError>)
    requires
        forall|i: &[u8]| call_requires(parser, (i,)),
    ensures
        forall|rule: spec_fn(Seq<u8>) -> Parsed<T::V>| #[trigger]
            implements(parser, rule) ==> agrees(input@, r, spec_listing(rule, own_ending, input@)),
        spec_status_line(input@) matches Parsed::Done(Response::Negative(line), n) ==> agrees(
            input@,
            r,
            Parsed::<Response<MultiLineView<T::V>, SingleLineView>>::Done(
                Response::Negative(line),
                n,
            ),
        ),
        !(spec_status_line(input@) is Done) ==> agrees(
            input@,
            r,
            spec_status_line(input@).failure::<Response<MultiLineView<T::V>, SingleLineView>>(),
        ),
        spec_status_line(input@) matches Parsed::Done(Response::Positive(line), n) ==> match r {
            Ok((rest, Response::Positive(found))) => found.head@ == line && calls_for_body(
                parser,
                own_ending,
                input@.skip(n as int),
                Ok::<(&[u8], Vec<T>), ParseError>((rest, found.body)),
            ),
            Ok((_, Response::Negative(_))) => false,
            Err(e) => calls_for_body(
                parser,
                own_ending,
                input@.skip(n as int),
                Err::<(&[u8], Vec<T>), ParseError>(e),
            ),
        },
{
    let first = single_line(input, head, false);
    proof {
        assert(implements(head, head_rule()));
    }
    let (rest, single) = first?;
    match single {
        Response::Positive(head) => {
            let (rest, body) = body(rest, parser, own_ending)?;
            Ok((rest, Response::Positive(MultiLine { head, body })))
        },
        Response::Negative(head) => Ok((rest, Response::Negative(head))),
    }
}

/// Parses a multi-line response. `parser` reads one line of the body,
/// without its line ending. The body ends at the first line that is a lone
/// `.`, which is never handed to `parser`; a line that `parser` refuses is a
/// syntax error.
pub fn multi_line<T: DeepView, P: Fn(&[u8]) -> Result<(&[u8], T), ParseError>>(
    input: &[u8],
    parser: P,
) -> (r: Result<(&[u8], Response<MultiLine<T>, SingleLine>), ParseError>)
    requires
        forall|i: &[u8]| call_requires(parser, (i,)),
    ensures
        forall|rule: spec_fn(Seq<u8>) -> Parsed<T::V>| #[trigger]
            implements(parser, rule) ==> agrees(input@, r, spec_multi_line(rule, input@)),
        spec_status_line(input@) matches Parsed::Done(Response::Negative(line), n) ==> agrees(
            input@,
            r,
            Parsed::<Response<MultiLineView<T::V>, SingleLineView>>::Done(
                Response::Negative(line),
                n,
            ),
        ),
        !(spec_status_line(input@) is Done) ==> agrees(
            input@,
            r,
            spec_status_line(input@).failure::<Response<MultiLineView<T::V>, SingleLineView>>(),
        ),
        spec_status_line(input@) matches Parsed::Done(Response::Positive(line), n) ==> match r {
            Ok((rest, Response::Positive(found))) => found.head@ == line && calls_for_body(
                parser,
                false,
                input@.skip(n as int),
                Ok::<(&[u8], Vec<T>), ParseError>((rest, found.body)),
            ),
            Ok((_, Response::Negative(_))) => false,
            Err(e) => calls_for_body(
                parser,
                false,
                input@.skip(n as int),
                Err::<(&[u8], Vec<T>), ParseError>(e),
            ),
        },
{
    listing(input, parser, false)
}

/// A line of a message: the rest of the line, unless it is a lone `.`.
/// A line that begins with `.` and goes on is handed out as it stands.
pub open spec fn spec_dot_stuffed(s: Seq<u8>) -> Parsed<Seq<char>> {
    match spec_line_text(s) {
        Parsed::Done(line, n) => if line == "."@ {
            Parsed::Invalid
        } else {
            Parsed::Done(line, n)
        },
        failed => failed,
    }
}

/// Reads what [`spec_dot_stuffed`] describes.
pub fn dot_stuffed(input: &[u8]) -> (r: Result<(&[u8], String), ParseError>)
    ensures
        agrees(input@, r, spec_dot_stuffed(input@)),
{
    let (rest, bytes) = not_line_ending(input)?;
    match as_text(bytes) {
        Some(line) => {
            proof {
                reveal_strlit(".");
                lemma_encode_ascii("."@);
                encode_utf8_decode_utf8("."@);
                decode_utf8_encode_utf8(bytes@);
                assert(encode_utf8("."@) =~= seq![0x2Eu8]);
                if bytes@ =~= seq![0x2Eu8] {
                    assert(line@ == "."@);
                }
            }
            if bytes.len() == 1 && bytes[0] == 0x2E {
                Err(ParseError::Syntax)
            } else {
                Ok((rest, line.to_owned()))
            }
        },
        None => Err(ParseError::Syntax),
    }
}

// ----- capabilities -----
/// A capability without parameters: its tag and the line ending.
pub open spec fn spec_bare_capability(s: Seq<u8>, tag: Seq<char>, value: CapabilityView) -> Parsed<
    CapabilityView,
> {
    let head = spec_tag_no_case(s, tag);
    with_value(then(head, spec_line_ending(s.skip(head.used() as int))), value)
}

fn bare_capability<'a>(input: &'a [u8], text: &str, value: Capability) -> (r: Result<
    (&'a [u8], Capability),
    ParseError,
>)
    ensures
        agrees(input@, r, spec_bare_capability(input@, text@, value@)),
{
    let (rest, _) = tag_no_case(input, text)?;
    let (rest, _) = line_ending(rest)?;
    Ok((rest, value))
}

/// The parameters of a capability: zero or more, each after one space.
pub open spec fn spec_params(s: Seq<u8>) -> Parsed<Seq<Seq<char>>> {
    spec_led_words(s, 0x20, ByteClass::Visible)
}

/// ` USER`, in any mix of upper and lower case, or nothing.
pub open spec fn spec_user_flag(s: Seq<u8>) -> Parsed<bool> {
    match spec_tag_no_case(s, " USER"@) {
        Parsed::Done(_, n) => Parsed::Done(true, n),
        Parsed::Incomplete => Parsed::Incomplete,
        Parsed::Invalid => Parsed::Done(false, 0),
    }
}

fn user_flag(input: &[u8]) -> (r: Result<(&[u8], bool), ParseError>)
    ensures
        agrees(input@, r, spec_user_flag(input@)),
{
    proof {
        assert(input@.skip(0) =~= input@);
    }
    match tag_no_case(input, " USER") {
        Ok((rest, _)) => Ok((rest, true)),
        Err(ParseError::Incomplete) => Err(ParseError::Incomplete),
        Err(ParseError::Syntax) => Ok((input, false)),
    }
}

/// `SASL` and the mechanisms.
pub open spec fn spec_sasl(s: Seq<u8>) -> Parsed<CapabilityView> {
    let head = spec_tag_no_case(s, "SASL"@);
    let params = spec_params(s.skip(head.used() as int));
    let end = spec_line_ending(s.skip((head.used() + params.used()) as int));
    match then(then(head, params), end) {
        Parsed::Done(((_, mechanisms), _), n) => Parsed::Done(
            CapabilityView::Sasl { mechanisms },
            n,
        ),
        failed => failed.failure(),
    }
}

fn sasl(input: &[u8]) -> (r: Result<(&[u8], Capability), ParseError>)
    ensures
        agrees(input@, r, spec_sasl(input@)),
{
    let (rest, _) = tag_no_case(input, "SASL")?;
    let mut mechanisms: Vec<String> = Vec::new();
    proof {
        assert(mechanisms.deep_view() =~= Seq::<Seq<char>>::empty());
    }
    let (rest, _) = led_words(rest, 0x20, ByteClass::Visible, &mut mechanisms)?;
    proof {
        let more = spec_params(input@.skip(spec_tag_no_case(input@, "SASL"@).used() as int));
        assert(Seq::<Seq<char>>::empty() + more->Done_0 =~= more->Done_0);
    }
    let (rest, _) = line_ending(rest)?;
    Ok((rest, Capability::Sasl { mechanisms }))
}

/// `LOGIN-DELAY`, the seconds, and ` USER` where the delay is per user.
pub open spec fn spec_login_delay(s: Seq<u8>) -> Parsed<CapabilityView> {
    let seconds = spec_keyword_number(s, "LOGIN-DELAY"@);
    let flag = spec_user_flag(s.skip(seconds.used() as int));
    let end = spec_line_ending(s.skip((seconds.used() + flag.used()) as int));
    match then(then(seconds, flag), end) {
        Parsed::Done(((minimum_seconds, per_user), _), n) => Parsed::Done(
            CapabilityView::LoginDelay { minimum_seconds, per_user },
            n,
        ),
        failed => failed.failure(),
    }
}

fn login_delay(input: &[u8]) -> (r: Result<(&[u8], Capability), ParseError>)
    ensures
        agrees(input@, r, spec_login_delay(input@)),
{
    let (rest, minimum_seconds) = keyword_number(input, "LOGIN-DELAY")?;
    let (rest, per_user) = user_flag(rest)?;
    let (rest, _) = line_ending(rest)?;
    Ok((rest, Capability::LoginDelay { minimum_seconds, per_user }))
}

/// The policy of EXPIRE: a number of days, or `NEVER`.
pub open spec fn spec_policy(s: Seq<u8>) -> Parsed<ExpirePolicy> {
    or_else(
        match spec_number(s) {
            Parsed::Done(days, n) => Parsed::Done(ExpirePolicy::MinimumDays(days), n),
            failed => failed.failure(),
        },
        with_value(spec_tag_no_case(s, "NEVER"@), ExpirePolicy::Never),
    )
}

fn policy(input: &[u8]) -> (r: Result<(&[u8], ExpirePolicy), ParseError>)
    ensures
        agrees(input@, r, spec_policy(input@)),
{
    match number(input) {
        Ok((rest, days)) => Ok((rest, ExpirePolicy::MinimumDays(days))),
        Err(ParseError::Incomplete) => Err(ParseError::Incomplete),
        Err(ParseError::Syntax) => {
            let (rest, _) = tag_no_case(input, "NEVER")?;
            Ok((rest, ExpirePolicy::Never))
        },
    }
}

/// `EXPIRE`, the policy, and ` USER` where the policy is per user.
pub open spec fn spec_expire(s: Seq<u8>) -> Parsed<CapabilityView> {
    let head = spec_keyword_space(s, "EXPIRE"@);
    let policy = spec_policy(s.skip(head.used() as int));
    let flag = spec_user_flag(s.skip((head.used() + policy.used()) as int));
    let end = spec_line_ending(s.skip((head.used() + policy.used() + flag.used()) as int));
    match then(then(then(head, policy), flag), end) {
        Parsed::Done((((_, policy), per_user), _), n) => Parsed::Done(
            CapabilityView::Expire { policy, per_user },
            n,
        ),
        failed => failed.failure(),
    }
}

fn expire(input: &[u8]) -> (r: Result<(&[u8], Capability), ParseError>)
    ensures
        agrees(input@, r, spec_expire(input@)),
{
    let (rest, _) = keyword_space(input, "EXPIRE")?;
    let (rest, policy) = policy(rest)?;
    let (rest, per_user) = user_flag(rest)?;
    let (rest, _) = line_ending(rest)?;
    Ok((rest, Capability::Expire { policy, per_user }))
}

/// `IMPLEMENTATION`, a space and the rest of the line.
pub open spec fn spec_implementation(s: Seq<u8>) -> Parsed<CapabilityView> {
    let head = spec_keyword_space(s, "IMPLEMENTATION"@);
    let text = spec_line_text(s.skip(head.used() as int));
    let end = spec_line_ending(s.skip((head.used() + text.used()) as int));
    match then(then(head, text), end) {
        Parsed::Done(((_, text), _), n) => Parsed::Done(CapabilityView::Implementation { text }, n),
        failed => failed.failure(),
    }
}

fn implementation(input: &[u8]) -> (r: Result<(&[u8], Capability), ParseError>)
    ensures
        agrees(input@, r, spec_implementation(input@)),
{
    let (rest, _) = keyword_space(input, "IMPLEMENTATION")?;
    let (rest, text) = line_text(rest)?;
    let (rest, _) = line_ending(rest)?;
    Ok((rest, Capability::Implementation { text: text.to_owned() }))
}

/// `UTF8`, and ` USER` where UTF-8 is allowed in credentials.
pub open spec fn spec_utf8_capability(s: Seq<u8>) -> Parsed<CapabilityView> {
    let head = spec_tag_no_case(s, "UTF8"@);
    let flag = spec_user_flag(s.skip(head.used() as int));
    let end = spec_line_ending(s.skip((head.used() + flag.used()) as int));
    match then(then(head, flag), end) {
        Parsed::Done(((_, in_credentials), _), n) => Parsed::Done(
            CapabilityView::Utf8 { in_credentials },
            n,
        ),
        failed => failed.failure(),
    }
}

fn utf8_capability(input: &[u8]) -> (r: Result<(&[u8], Capability), ParseError>)
    ensures
        agrees(input@, r, spec_utf8_capability(input@)),
{
    let (rest, _) = tag_no_case(input, "UTF8")?;
    let (rest, in_credentials) = user_flag(rest)?;
    let (rest, _) = line_ending(rest)?;
    Ok((rest, Capability::Utf8 { in_credentials }))
}

/// The tag of a capability: one or more bytes that are neither a space
/// nor `.`.
pub open spec fn spec_capa_tag(s: Seq<u8>) -> Parsed<Seq<char>> {
    spec_word(s, ByteClass::Tag)
}

/// Reads what [`spec_capa_tag`] describes.
pub fn capa_tag(input: &[u8]) -> (r: Result<(&[u8], &str), ParseError>)
    ensures
        agrees(input@, r, spec_capa_tag(input@)),
{
    word(input, ByteClass::Tag)
}

/// A capability that is not known: its tag and its parameters.
pub open spec fn spec_other_capability(s: Seq<u8>) -> Parsed<CapabilityView> {
    let tag = spec_capa_tag(s);
    let params = spec_params(s.skip(tag.used() as int));
    let end = spec_line_ending(s.skip((tag.used() + params.used()) as int));
    match then(then(tag, params), end) {
        Parsed::Done(((tag, parameters), _), n) => Parsed::Done(
            CapabilityView::Other { tag, parameters },
            n,
        ),
        failed => failed.failure(),
    }
}

fn other_capability(input: &[u8]) -> (r: Result<(&[u8], Capability), ParseError>)
    ensures
        agrees(input@, r, spec_other_capability(input@)),
{
    let (rest, tag) = capa_tag(input)?;
    let mut parameters: Vec<String> = Vec::new();
    proof {
        assert(parameters.deep_view() =~= Seq::<Seq<char>>::empty());
    }
    let (rest, _) = led_words(rest, 0x20, ByteClass::Visible, &mut parameters)?;
    proof {
        let more = spec_params(input@.skip(spec_capa_tag(input@).used() as int));
        assert(Seq::<Seq<char>>::empty() + more->Done_0 =~= more->Done_0);
    }
    let (rest, _) = line_ending(rest)?;
    Ok((rest, Capability::Other { tag: tag.to_owned(), parameters }))
}

/// The capabilities with a grammar of their own, in the order in which
/// they are tried.
#[verifier::opaque]
pub open spec fn spec_known_capability(s: Seq<u8>) -> Parsed<CapabilityView> {
    or_else(
        spec_bare_capability(s, "TOP"@, CapabilityView::Top),
        or_else(
            spec_bare_capability(s, "USER"@, CapabilityView::User),
            or_else(
                spec_sasl(s),
                or_else(
                    spec_bare_capability(s, "RESP-CODES"@, CapabilityView::RespCodes),
                    or_else(
                        spec_login_delay(s),
                        or_else(
                            spec_bare_capability(s, "PIPELINING"@, CapabilityView::Pipelining),
                            or_else(
                                spec_expire(s),
                                or_else(
                                    spec_bare_capability(s, "UIDL"@, CapabilityView::Uidl),
                                    or_else(
                                        spec_implementation(s),
                                        or_else(
                                            spec_bare_capability(s, "STLS"@, CapabilityView::Stls),
                                            or_else(
                                                spec_bare_capability(
                                                    s,
                                                    "AUTH-RESP-CODE"@,
                                                    CapabilityView::AuthRespCode,
                                                ),
                                                or_else(
                                                    spec_bare_capability(
                                                        s,
                                                        "LANG"@,
                                                        CapabilityView::Lang,
                                                    ),
                                                    spec_utf8_capability(s),
                                                ),
                                            ),
                                        ),
                                    ),
                                ),
                            ),
                        ),
                    ),
                ),
            ),
        ),
    )
}

/// A capability line with its line ending: one of the known capabilities,
/// or, where none of them matches, any tag with its parameters.
pub open spec fn spec_capability(s: Seq<u8>) -> Parsed<CapabilityView> {
    or_else(spec_known_capability(s), spec_other_capability(s))
}

fn known_capability(input: &[u8]) -> (r: Result<(&[u8], Capability), ParseError>)
    ensures
        agrees(input@, r, spec_known_capability(input@)),
{
    reveal(spec_known_capability);
    match bare_capability(input, "TOP", Capability::Top) {
        Err(ParseError::Syntax) => {},
        other => {
            return other;
        },
    }
    match bare_capability(input, "USER", Capability::User) {
        Err(ParseError::Syntax) => {},
        other => {
            return other;
        },
    }
    match sasl(input) {
        Err(ParseError::Syntax) => {},
        other => {
            return other;
        },
    }
    match bare_capability(input, "RESP-CODES", Capability::RespCodes) {
        Err(ParseError::Syntax) => {},
        other => {
            return other;
        },
    }
    match login_delay(input) {
        Err(ParseError::Syntax) => {},
        other => {
            return other;
        },
    }
    match bare_capability(input, "PIPELINING", Capability::Pipelining) {
        Err(ParseError::Syntax) => {},
        other => {
            return other;
        },
    }
    match expire(input) {
        Err(ParseError::Syntax) => {},
        other => {
            return other;
        },
    }
    match bare_capability(input, "UIDL", Capability::Uidl) {
        Err(ParseError::Syntax) => {},
        other => {
            return other;
        },
    }
    match implementation(input) {
        Err(ParseError::Syntax) => {},
        other => {
            return other;
        },
    }
    match bare_capability(input, "STLS", Capability::Stls) {
        Err(ParseError::Syntax) => {},
        other => {
            return other;
        },
    }
    match bare_capability(input, "AUTH-RESP-CODE", Capability::AuthRespCode) {
        Err(ParseError::Syntax) => {},
        other => {
            return other;
        },
    }
    match bare_capability(input, "LANG", Capability::Lang) {
        Err(ParseError::Syntax) => {},
        other => {
            return other;
        },
    }
    utf8_capability(input)
}

/// Parses one capability line, with its line ending.
pub fn capability(input: &[u8]) -> (r: Result<(&[u8], Capability), ParseError>)
    ensures
        agrees(input@, r, spec_capability(input@)),
{
    match known_capability(input) {
        Err(ParseError::Syntax) => other_capability(input),
        other => other,
    }
}

} // verus!
