//! Parse outcomes and the primitive tokens that the grammars are built from.
//!
//! Every parser works on a slice that may hold only the beginning of a
//! message. Where the bytes seen so far could still grow into a match, the
//! outcome is "incomplete"; where they cannot, it is a syntax error.

use crate::parse::charset::{
    abnf_is_alpha, abnf_is_vchar, is_auth_char, is_base64_char, is_cchar, is_digit, is_gchar,
    is_rchar, is_schar, is_uid_char, lowercase, spec_is_alpha, spec_is_alphanumeric,
    spec_is_auth_char, spec_is_base64_char, spec_is_cchar, spec_is_digit, spec_is_gchar,
    spec_is_rchar, spec_is_schar, spec_is_uid_char, spec_is_vchar, spec_lowercase,
};
use crate::text::{as_text, decimal_value, spec_text};
use vstd::prelude::*;
use vstd::slice::slice_subrange;
use vstd::string::*;
use vstd::utf8::*;

verus! {

/// Why a parser returned no value.
#[derive(Debug, Clone, Copy, PartialEq, Eq, Structural)]
pub enum ParseError {
    /// The input is a proper beginning of something that may match: more bytes are needed.
    Incomplete,
    /// The input cannot match, whatever follows it.
    Syntax,
}

/// The three outcomes of a grammar rule on a byte sequence.
pub enum Parsed<T> {
    /// The rule matched: its value, and the number of bytes that it read.
    Done(T, nat),
    /// The bytes are a beginning of a possible match.
    Incomplete,
    /// The bytes cannot match.
    Invalid,
}

impl<T> Parsed<T> {
    /// A failed outcome, carried over to a rule with another value type.
    pub open spec fn failure<U>(self) -> Parsed<U> {
        match self {
            Parsed::Incomplete => Parsed::Incomplete,
            _ => Parsed::Invalid,
        }
    }

    /// The number of bytes matched; zero for a failed outcome.
    pub open spec fn used(self) -> nat {
        match self {
            Parsed::Done(_, n) => n,
            _ => 0,
        }
    }
}

/// Two rules in sequence: `second` is the outcome of the second rule on what
/// the first has left.
pub open spec fn then<A, B>(first: Parsed<A>, second: Parsed<B>) -> Parsed<(A, B)> {
    match first {
        Parsed::Done(a, n) => match second {
            Parsed::Done(b, m) => Parsed::Done((a, b), n + m),
            failed => failed.failure(),
        },
        failed => failed.failure(),
    }
}

/// A rule that may be absent: a syntax error becomes an empty match, and an
/// incomplete input stays incomplete.
pub open spec fn optional<A>(p: Parsed<A>) -> Parsed<Option<A>> {
    match p {
        Parsed::Done(a, n) => Parsed::Done(Some(a), n),
        Parsed::Incomplete => Parsed::Incomplete,
        Parsed::Invalid => Parsed::Done(None, 0),
    }
}

/// Two alternatives in order: the second is tried only where the first is
/// a syntax error.
pub open spec fn or_else<A>(first: Parsed<A>, second: Parsed<A>) -> Parsed<A> {
    match first {
        Parsed::Invalid => second,
        _ => first,
    }
}

/// The outcome of a repetition that has already read `items` in `used`
/// bytes, where `p` is the outcome of the repetition on what is left.
pub open spec fn after_items<V>(items: Seq<V>, used: nat, p: Parsed<Seq<V>>) -> Parsed<Seq<V>> {
    match p {
        Parsed::Done(more, n) => Parsed::Done(items + more, used + n),
        failed => failed,
    }
}

/// The model of a vector after a push is the model before it, with the
/// model of the new item at its end.
pub proof fn lemma_push_deep_view<T: DeepView>(before: Vec<T>, after: Vec<T>, item: T)
    requires
        after@ == before@.push(item),
    ensures
        after.deep_view() == before.deep_view().push(item.deep_view()),
{
    assert(after.deep_view() =~= before.deep_view().push(item.deep_view()));
}

/// The outcome with another value in place of the parsed one.
pub open spec fn with_value<A, B>(p: Parsed<A>, value: B) -> Parsed<B> {
    match p {
        Parsed::Done(_, n) => Parsed::Done(value, n),
        failed => failed.failure(),
    }
}

/// An executable result says what the specification outcome `p` says: the
/// same failure, or the value whose model is that of `p` and the input without
/// the matched bytes.
pub open spec fn agrees<T: DeepView>(
    input: Seq<u8>,
    r: Result<(&[u8], T), ParseError>,
    p: Parsed<T::V>,
) -> bool {
    match p {
        Parsed::Done(v, n) => {
            &&& r matches Ok((rest, value))
            &&& n <= input.len()
            &&& rest@ == input.skip(n as int)
            &&& value.deep_view() == v
        },
        Parsed::Incomplete => r == Err::<(&[u8], T), ParseError>(ParseError::Incomplete),
        Parsed::Invalid => r == Err::<(&[u8], T), ParseError>(ParseError::Syntax),
    }
}

/// As `agrees`, for a rule whose value is the matched bytes themselves.
pub open spec fn agrees_bytes(
    input: Seq<u8>,
    r: Result<(&[u8], &[u8]), ParseError>,
    p: Parsed<Seq<u8>>,
) -> bool {
    match p {
        Parsed::Done(v, n) => {
            &&& r matches Ok((rest, value))
            &&& n <= input.len()
            &&& rest@ == input.skip(n as int)
            &&& value@ == v
        },
        Parsed::Incomplete => r == Err::<(&[u8], &[u8]), ParseError>(ParseError::Incomplete),
        Parsed::Invalid => r == Err::<(&[u8], &[u8]), ParseError>(ParseError::Syntax),
    }
}

/// Dropping `a` bytes and then `b` bytes drops `a + b` bytes.
pub broadcast proof fn lemma_skip_twice(s: Seq<u8>, a: int, b: int)
    requires
        0 <= a,
        0 <= b,
        a + b <= s.len(),
    ensures
        #[trigger] s.skip(a).skip(b) == s.skip(a + b),
{
    assert(s.skip(a).skip(b) =~= s.skip(a + b));
}

// ----- byte classes -----
/// The sets of bytes that a run of the grammar may be drawn from.
#[derive(Debug, Clone, Copy, PartialEq, Eq)]
pub enum ByteClass {
    /// ASCII letters.
    Alpha,
    /// ASCII digits.
    Digit,
    /// ASCII letters and digits.
    Alphanumeric,
    /// Visible ASCII.
    Visible,
    /// Bytes of a SASL mechanism name.
    Mechanism,
    /// Bytes of the base64 alphabet.
    Base64,
    /// Bytes of a response level.
    Level,
    /// Bytes of a greeting comment.
    Greeting,
    /// Bytes of a status comment.
    Status,
    /// Bytes of a capability tag.
    Tag,
    /// Bytes of a unique id.
    UniqueId,
    /// Every byte but CR and LF.
    Line,
    /// Every byte but the space.
    NotSpace,
    /// Every byte but `>`.
    NotGreater,
}

impl ByteClass {
    /// The byte is of the class.
    pub open spec fn spec_holds(self, byte: u8) -> bool {
        match self {
            ByteClass::Alpha => spec_is_alpha(byte),
            ByteClass::Digit => spec_is_digit(byte),
            ByteClass::Alphanumeric => spec_is_alphanumeric(byte),
            ByteClass::Visible => spec_is_vchar(byte),
            ByteClass::Mechanism => spec_is_auth_char(byte),
            ByteClass::Base64 => spec_is_base64_char(byte),
            ByteClass::Level => spec_is_rchar(byte),
            ByteClass::Greeting => spec_is_gchar(byte),
            ByteClass::Status => spec_is_schar(byte),
            ByteClass::Tag => spec_is_cchar(byte),
            ByteClass::UniqueId => spec_is_uid_char(byte),
            ByteClass::Line => byte != 0x0D && byte != 0x0A,
            ByteClass::NotSpace => byte != 0x20,
            ByteClass::NotGreater => byte != 0x3E,
        }
    }

    /// Whether the byte is of the class.
    pub fn holds(self, byte: u8) -> (r: bool)
        ensures
            r == self.spec_holds(byte),
    {
        match self {
            ByteClass::Alpha => abnf_is_alpha(byte),
            ByteClass::Digit => is_digit(byte),
            ByteClass::Alphanumeric => nom::character::is_alphanumeric(byte),
            ByteClass::Visible => abnf_is_vchar(byte),
            ByteClass::Mechanism => is_auth_char(byte),
            ByteClass::Base64 => is_base64_char(byte),
            ByteClass::Level => is_rchar(byte),
            ByteClass::Greeting => is_gchar(byte),
            ByteClass::Status => is_schar(byte),
            ByteClass::Tag => is_cchar(byte),
            ByteClass::UniqueId => is_uid_char(byte),
            ByteClass::Line => byte != 0x0D && byte != 0x0A,
            ByteClass::NotSpace => byte != 0x20,
            ByteClass::NotGreater => byte != 0x3E,
        }
    }
}

/// The end of the longest run of bytes of `class` that starts at `from`.
pub open spec fn run_end(s: Seq<u8>, class: ByteClass, from: nat) -> nat
    decreases s.len() - from,
{
    if from < s.len() && class.spec_holds(s[from as int]) {
        run_end(s, class, from + 1)
    } else {
        from
    }
}

/// The length of the longest prefix of `s` whose bytes are all of `class`.
pub open spec fn run_len(s: Seq<u8>, class: ByteClass) -> nat {
    run_end(s, class, 0)
}

/// What `run_end` returns: every byte up to it is of the class, and the byte
/// at it, if there is one, is not.
pub proof fn lemma_run_end(s: Seq<u8>, class: ByteClass, from: nat)
    requires
        from <= s.len(),
    ensures
        from <= run_end(s, class, from) <= s.len(),
        forall|i: int| from <= i < run_end(s, class, from) ==> class.spec_holds(#[trigger] s[i]),
        run_end(s, class, from) < s.len() ==> !class.spec_holds(s[run_end(s, class, from) as int]),
    decreases s.len() - from,
{
    if from < s.len() && class.spec_holds(s[from as int]) {
        lemma_run_end(s, class, from + 1);
    }
}

/// A position with the two properties of `lemma_run_end` is the end of the run.
pub proof fn lemma_run_end_is(s: Seq<u8>, class: ByteClass, from: nat, end: nat)
    requires
        from <= end <= s.len(),
        forall|i: int| from <= i < end ==> class.spec_holds(#[trigger] s[i]),
        end < s.len() ==> !class.spec_holds(s[end as int]),
    ensures
        run_end(s, class, from) == end,
    decreases end - from,
{
    if from < end {
        lemma_run_end_is(s, class, from + 1, end);
    }
}

/// The length of the longest prefix of bytes of `class`.
pub fn scan(input: &[u8], class: ByteClass) -> (n: usize)
    ensures
        n == run_len(input@, class),
        n <= input@.len(),
{
    let mut n: usize = 0;
    while n < input.len() && class.holds(input[n])
        invariant
            n <= input.len(),
            forall|i: int| 0 <= i < n ==> class.spec_holds(#[trigger] input@[i]),
        decreases input.len() - n,
    {
        n += 1;
    }
    proof {
        lemma_run_end_is(input@, class, 0, n as nat);
    }
    n
}

/// Splits a slice at `n`: the rest, then the first `n` bytes.
pub fn split(input: &[u8], n: usize) -> (r: (&[u8], &[u8]))
    requires
        n <= input@.len(),
    ensures
        r.0@ == input@.skip(n as int),
        r.1@ == input@.take(n as int),
{
    (slice_subrange(input, n, input.len()), slice_subrange(input, 0, n))
}

// ----- runs of a byte class -----
/// Zero or more bytes of `class`, up to a byte that is not of it. A run that
/// reaches the end of the input may still grow.
pub open spec fn spec_take_while(s: Seq<u8>, class: ByteClass) -> Parsed<Seq<u8>> {
    let n = run_len(s, class);
    if n == s.len() {
        Parsed::Incomplete
    } else {
        Parsed::Done(s.take(n as int), n)
    }
}

/// One or more bytes of `class`, up to a byte that is not of it.
pub open spec fn spec_take_while1(s: Seq<u8>, class: ByteClass) -> Parsed<Seq<u8>> {
    let n = run_len(s, class);
    if n == s.len() {
        Parsed::Incomplete
    } else if n == 0 {
        Parsed::Invalid
    } else {
        Parsed::Done(s.take(n as int), n)
    }
}

/// Between `min` and `max` bytes of `class`: the run is cut at `max`, and is
/// refused where a byte that is not of the class comes before `min`.
pub open spec fn spec_take_while_m_n(s: Seq<u8>, min: nat, max: nat, class: ByteClass) -> Parsed<
    Seq<u8>,
> {
    let n = run_len(s, class);
    if n < s.len() {
        if n < min {
            Parsed::Invalid
        } else if n <= max {
            Parsed::Done(s.take(n as int), n)
        } else {
            Parsed::Done(s.take(max as int), max)
        }
    } else if s.len() >= max {
        Parsed::Done(s.take(max as int), max)
    } else {
        Parsed::Incomplete
    }
}

/// Reads what [`spec_take_while`] describes.
pub fn take_while(input: &[u8], class: ByteClass) -> (r: Result<(&[u8], &[u8]), ParseError>)
    ensures
        agrees_bytes(input@, r, spec_take_while(input@, class)),
{
    let n = scan(input, class);
    if n == input.len() {
        Err(ParseError::Incomplete)
    } else {
        Ok(split(input, n))
    }
}

/// Reads what [`spec_take_while1`] describes.
pub fn take_while1(input: &[u8], class: ByteClass) -> (r: Result<(&[u8], &[u8]), ParseError>)
    ensures
        agrees_bytes(input@, r, spec_take_while1(input@, class)),
{
    let n = scan(input, class);
    if n == input.len() {
        Err(ParseError::Incomplete)
    } else if n == 0 {
        Err(ParseError::Syntax)
    } else {
        Ok(split(input, n))
    }
}

/// Reads what [`spec_take_while_m_n`] describes.
pub fn take_while_m_n(input: &[u8], min: usize, max: usize, class: ByteClass) -> (r: Result<
    (&[u8], &[u8]),
    ParseError,
>)
    ensures
        agrees_bytes(input@, r, spec_take_while_m_n(input@, min as nat, max as nat, class)),
{
    let n = scan(input, class);
    if n < input.len() {
        if n < min {
            Err(ParseError::Syntax)
        } else if n <= max {
            Ok(split(input, n))
        } else {
            Ok(split(input, max))
        }
    } else if input.len() >= max {
        Ok(split(input, max))
    } else {
        Err(ParseError::Incomplete)
    }
}

// ----- literal tags -----
/// Equality of two bytes, with ASCII capitals folded to lower case on demand.
pub open spec fn same_byte(a: u8, b: u8, fold: bool) -> bool {
    if fold {
        spec_lowercase(a) == spec_lowercase(b)
    } else {
        a == b
    }
}

/// Some byte of `s` differs from the byte of `tag` at the same place.
pub open spec fn tag_differs(s: Seq<u8>, tag: Seq<u8>, fold: bool) -> bool {
    exists|i: int| 0 <= i < s.len() && i < tag.len() && !same_byte(#[trigger] s[i], tag[i], fold)
}

/// The literal text `tag` at the start of `s`. A difference in the part
/// that is there is a syntax error; an input that agrees with the tag as far as
/// it goes, and is shorter, is incomplete.
pub open spec fn spec_tag_with(s: Seq<u8>, tag: Seq<char>, fold: bool) -> Parsed<()> {
    let bytes = encode_utf8(tag);
    if tag_differs(s, bytes, fold) {
        Parsed::Invalid
    } else if s.len() < bytes.len() {
        Parsed::Incomplete
    } else {
        Parsed::Done((), bytes.len())
    }
}

/// The literal text `tag`, byte for byte.
pub open spec fn spec_tag(s: Seq<u8>, tag: Seq<char>) -> Parsed<()> {
    spec_tag_with(s, tag, false)
}

/// The literal text `tag`, in any mix of upper and lower case.
pub open spec fn spec_tag_no_case(s: Seq<u8>, tag: Seq<char>) -> Parsed<()> {
    spec_tag_with(s, tag, true)
}

/// An input that begins with the bytes of the tag matches it.
pub proof fn lemma_tag_matches(s: Seq<u8>, tag: Seq<char>, fold: bool)
    requires
        encode_utf8(tag).len() <= s.len(),
        s.take(encode_utf8(tag).len() as int) == encode_utf8(tag),
    ensures
        spec_tag_with(s, tag, fold) == Parsed::Done((), encode_utf8(tag).len()),
{
    let bytes = encode_utf8(tag);
    assert forall|i: int| 0 <= i < s.len() && i < bytes.len() implies same_byte(
        #[trigger] s[i],
        bytes[i],
        fold,
    ) by {
        assert(s.take(bytes.len() as int)[i] == s[i]);
    }
}

/// An input that differs from the tag at `i` does not match it.
pub proof fn lemma_tag_rejects(s: Seq<u8>, tag: Seq<char>, fold: bool, i: int)
    requires
        0 <= i < s.len(),
        i < encode_utf8(tag).len(),
        !same_byte(s[i], encode_utf8(tag)[i], fold),
    ensures
        spec_tag_with(s, tag, fold) == Parsed::<()>::Invalid,
{
}

fn tag_with<'a>(input: &'a [u8], text: &str, fold: bool) -> (r: Result<(&'a [u8], ()), ParseError>)
    ensures
        agrees(input@, r, spec_tag_with(input@, text@, fold)),
{
    let bytes = text.as_bytes();
    let mut i: usize = 0;
    while i < bytes.len() && i < input.len()
        invariant
            i <= bytes@.len(),
            i <= input@.len(),
            bytes@ == encode_utf8(text@),
            forall|j: int| 0 <= j < i ==> same_byte(#[trigger] input@[j], bytes@[j], fold),
        decreases bytes.len() - i,
    {
        let same = if fold {
            lowercase(input[i]) == lowercase(bytes[i])
        } else {
            input[i] == bytes[i]
        };
        if !same {
            return Err(ParseError::Syntax);
        }
        i += 1;
    }
    if input.len() < bytes.len() {
        Err(ParseError::Incomplete)
    } else {
        Ok((slice_subrange(input, bytes.len(), input.len()), ()))
    }
}

/// Reads what [`spec_tag`] describes.
pub fn tag<'a>(input: &'a [u8], text: &str) -> (r: Result<(&'a [u8], ()), ParseError>)
    ensures
        agrees(input@, r, spec_tag(input@, text@)),
{
    tag_with(input, text, false)
}

/// Reads what [`spec_tag_no_case`] describes.
pub fn tag_no_case<'a>(input: &'a [u8], text: &str) -> (r: Result<(&'a [u8], ()), ParseError>)
    ensures
        agrees(input@, r, spec_tag_no_case(input@, text@)),
{
    tag_with(input, text, true)
}

/// The one byte `byte`.
pub open spec fn spec_byte(s: Seq<u8>, byte: u8) -> Parsed<()> {
    if s.len() == 0 {
        Parsed::Incomplete
    } else if s[0] == byte {
        Parsed::Done((), 1)
    } else {
        Parsed::Invalid
    }
}

/// Reads what [`spec_byte`] describes.
pub fn byte(input: &[u8], wanted: u8) -> (r: Result<(&[u8], ()), ParseError>)
    ensures
        agrees(input@, r, spec_byte(input@, wanted)),
{
    if input.len() == 0 {
        Err(ParseError::Incomplete)
    } else if input[0] == wanted {
        Ok((slice_subrange(input, 1, input.len()), ()))
    } else {
        Err(ParseError::Syntax)
    }
}

/// One space.
pub open spec fn spec_space(s: Seq<u8>) -> Parsed<()> {
    spec_byte(s, 0x20)
}

/// Reads what [`spec_space`] describes.
pub fn space(input: &[u8]) -> (r: Result<(&[u8], ()), ParseError>)
    ensures
        agrees(input@, r, spec_space(input@)),
{
    byte(input, 0x20)
}

// ----- lines -----
/// The end of a line: LF, or CR LF. A lone CR at the end of the input may
/// still become CR LF.
pub open spec fn spec_line_ending(s: Seq<u8>) -> Parsed<()> {
    if s.len() == 0 {
        Parsed::Incomplete
    } else if s[0] == 0x0A {
        Parsed::Done((), 1)
    } else if s[0] != 0x0D {
        Parsed::Invalid
    } else if s.len() == 1 {
        Parsed::Incomplete
    } else if s[1] == 0x0A {
        Parsed::Done((), 2)
    } else {
        Parsed::Invalid
    }
}

/// Reads what [`spec_line_ending`] describes.
pub fn line_ending(input: &[u8]) -> (r: Result<(&[u8], ()), ParseError>)
    ensures
        agrees(input@, r, spec_line_ending(input@)),
{
    if input.len() == 0 {
        Err(ParseError::Incomplete)
    } else if input[0] == 0x0A {
        Ok((slice_subrange(input, 1, input.len()), ()))
    } else if input[0] != 0x0D {
        Err(ParseError::Syntax)
    } else if input.len() == 1 {
        Err(ParseError::Incomplete)
    } else if input[1] == 0x0A {
        Ok((slice_subrange(input, 2, input.len()), ()))
    } else {
        Err(ParseError::Syntax)
    }
}

/// The bytes before the end of the line, which is not consumed. The line
/// must end in sight: with LF or CR LF. A CR that something else follows is a
/// syntax error.
pub open spec fn spec_not_line_ending(s: Seq<u8>) -> Parsed<Seq<u8>> {
    let n = run_len(s, ByteClass::Line);
    if n == s.len() {
        Parsed::Incomplete
    } else if s[n as int] == 0x0A {
        Parsed::Done(s.take(n as int), n)
    } else if n + 1 == s.len() {
        Parsed::Incomplete
    } else if s[n as int + 1] == 0x0A {
        Parsed::Done(s.take(n as int), n)
    } else {
        Parsed::Invalid
    }
}

/// Reads what [`spec_not_line_ending`] describes.
pub fn not_line_ending(input: &[u8]) -> (r: Result<(&[u8], &[u8]), ParseError>)
    ensures
        agrees_bytes(input@, r, spec_not_line_ending(input@)),
{
    let n = scan(input, ByteClass::Line);
    proof {
        lemma_run_end(input@, ByteClass::Line, 0);
    }
    if n == input.len() {
        Err(ParseError::Incomplete)
    } else if input[n] == 0x0A {
        Ok(split(input, n))
    } else if n + 1 == input.len() {
        Err(ParseError::Incomplete)
    } else if input[n + 1] == 0x0A {
        Ok(split(input, n))
    } else {
        Err(ParseError::Syntax)
    }
}

// ----- text -----
/// The outcome of a rule on bytes, read as text: bytes that are not
/// well-formed UTF-8 are a syntax error.
pub open spec fn spec_as_text(p: Parsed<Seq<u8>>) -> Parsed<Seq<char>> {
    match p {
        Parsed::Done(bytes, n) => match spec_text(bytes) {
            Some(chars) => Parsed::Done(chars, n),
            None => Parsed::Invalid,
        },
        Parsed::Incomplete => Parsed::Incomplete,
        Parsed::Invalid => Parsed::Invalid,
    }
}

fn textual<'a>(
    Ghost(input): Ghost<Seq<u8>>,
    r: Result<(&'a [u8], &'a [u8]), ParseError>,
    Ghost(p): Ghost<Parsed<Seq<u8>>>,
) -> (out: Result<(&'a [u8], &'a str), ParseError>)
    requires
        agrees_bytes(input, r, p),
    ensures
        agrees(input, out, spec_as_text(p)),
{
    match r {
        Ok((rest, bytes)) => match as_text(bytes) {
            Some(s) => Ok((rest, s)),
            None => Err(ParseError::Syntax),
        },
        Err(e) => Err(e),
    }
}

/// The text of the rest of the line.
pub open spec fn spec_line_text(s: Seq<u8>) -> Parsed<Seq<char>> {
    spec_as_text(spec_not_line_ending(s))
}

/// Reads what [`spec_line_text`] describes.
pub fn line_text(input: &[u8]) -> (r: Result<(&[u8], &str), ParseError>)
    ensures
        agrees(input@, r, spec_line_text(input@)),
{
    textual(Ghost(input@), not_line_ending(input), Ghost(spec_not_line_ending(input@)))
}

/// The text of a run of zero or more bytes of `class`.
pub open spec fn spec_run_text(s: Seq<u8>, class: ByteClass) -> Parsed<Seq<char>> {
    spec_as_text(spec_take_while(s, class))
}

/// Reads what [`spec_run_text`] describes.
pub fn run_text(input: &[u8], class: ByteClass) -> (r: Result<(&[u8], &str), ParseError>)
    ensures
        agrees(input@, r, spec_run_text(input@, class)),
{
    textual(Ghost(input@), take_while(input, class), Ghost(spec_take_while(input@, class)))
}

/// The text of a run of one or more bytes of `class`.
pub open spec fn spec_word(s: Seq<u8>, class: ByteClass) -> Parsed<Seq<char>> {
    spec_as_text(spec_take_while1(s, class))
}

/// Reads what [`spec_word`] describes.
pub fn word(input: &[u8], class: ByteClass) -> (r: Result<(&[u8], &str), ParseError>)
    ensures
        agrees(input@, r, spec_word(input@, class)),
{
    textual(Ghost(input@), take_while1(input, class), Ghost(spec_take_while1(input@, class)))
}

/// A parameter: one or more visible characters.
pub open spec fn spec_param(s: Seq<u8>) -> Parsed<Seq<char>> {
    spec_word(s, ByteClass::Visible)
}

/// Reads what [`spec_param`] describes.
pub fn param(input: &[u8]) -> (r: Result<(&[u8], &str), ParseError>)
    ensures
        agrees(input@, r, spec_param(input@)),
{
    word(input, ByteClass::Visible)
}

// ----- numbers -----
/// An unsigned decimal number of one or more digits, up to a byte that is
/// no digit. A numeral that does not fit 32 bits is a syntax error.
pub open spec fn spec_number(s: Seq<u8>) -> Parsed<u32> {
    let n = run_len(s, ByteClass::Digit);
    if n == s.len() {
        Parsed::Incomplete
    } else if n == 0 {
        Parsed::Invalid
    } else if decimal_value(s.take(n as int)) > u32::MAX {
        Parsed::Invalid
    } else {
        Parsed::Done(decimal_value(s.take(n as int)) as u32, n)
    }
}

/// Appending a digit never makes the value smaller.
proof fn lemma_decimal_value_grows(digits: Seq<u8>, k: int)
    requires
        0 <= k <= digits.len(),
        forall|i: int| 0 <= i < digits.len() ==> 0x30 <= #[trigger] digits[i] <= 0x39,
    ensures
        decimal_value(digits.take(k)) <= decimal_value(digits),
    decreases digits.len() - k,
{
    if k < digits.len() {
        lemma_decimal_value_grows(digits, k + 1);
        assert(digits.take(k + 1).drop_last() =~= digits.take(k));
    } else {
        assert(digits.take(k) =~= digits);
    }
}

/// Reads what [`spec_number`] describes.
pub fn number(input: &[u8]) -> (r: Result<(&[u8], u32), ParseError>)
    ensures
        agrees(input@, r, spec_number(input@)),
{
    let n = scan(input, ByteClass::Digit);
    proof {
        lemma_run_end(input@, ByteClass::Digit, 0);
    }
    if n == input.len() {
        return Err(ParseError::Incomplete);
    }
    if n == 0 {
        return Err(ParseError::Syntax);
    }
    let ghost digits = input@.take(n as int);
    let mut value: u64 = 0;
    let mut i: usize = 0;
    while i < n
        invariant
            i <= n < input@.len(),
            0 < n == run_len(input@, ByteClass::Digit),
            digits == input@.take(n as int),
            forall|j: int| 0 <= j < digits.len() ==> 0x30 <= #[trigger] digits[j] <= 0x39,
            value == decimal_value(digits.take(i as int)),
            value <= u32::MAX,
        decreases n - i,
    {
        assert(digits[i as int] == input@[i as int]);
        let digit: u64 = (input[i] - 0x30) as u64;
        let next: u64 = value * 10 + digit;
        proof {
            assert(digits.take(i + 1).drop_last() =~= digits.take(i as int));
            assert(digits.take(i + 1).last() == digits[i as int]);
            assert(next == decimal_value(digits.take(i + 1)));
        }
        if next > 0xFFFF_FFFF {
            proof {
                lemma_decimal_value_grows(digits, i + 1);
            }
            return Err(ParseError::Syntax);
        }
        value = next;
        i += 1;
    }
    proof {
        assert(digits.take(n as int) =~= digits);
    }
    Ok((slice_subrange(input, n, input.len()), value as u32))
}

// ----- language tags -----
/// Zero or more subtags, each a `-` and one to eight letters or digits. A
/// `-` that no subtag follows is left unread.
pub open spec fn spec_subtags(s: Seq<u8>) -> Parsed<()>
    decreases s.len(),
{
    let dash = spec_tag(s, "-"@);
    let sub = spec_take_while_m_n(s.skip(dash.used() as int), 1, 8, ByteClass::Alphanumeric);
    match then(dash, sub) {
        Parsed::Done(_, n) => if 0 < n <= s.len() {
            match spec_subtags(s.skip(n as int)) {
                Parsed::Done(_, m) => Parsed::Done((), n + m),
                failed => failed,
            }
        } else {
            Parsed::Done((), 0)
        },
        Parsed::Incomplete => Parsed::Incomplete,
        Parsed::Invalid => Parsed::Done((), 0),
    }
}

/// The bytes of a language tag: one to eight letters, then subtags.
pub open spec fn spec_language_bytes(s: Seq<u8>) -> Parsed<Seq<u8>> {
    let first = spec_take_while_m_n(s, 1, 8, ByteClass::Alpha);
    let more = spec_subtags(s.skip(first.used() as int));
    match then(first, more) {
        Parsed::Done(_, n) => Parsed::Done(s.take(n as int), n),
        failed => failed.failure(),
    }
}

/// A language tag.
pub open spec fn spec_language(s: Seq<u8>) -> Parsed<Seq<char>> {
    spec_as_text(spec_language_bytes(s))
}

/// The bytes of one `-`.
proof fn lemma_dash()
    ensures
        encode_utf8("-"@) == seq![0x2Du8],
{
    reveal_strlit("-");
    crate::text::lemma_encode_ascii("-"@);
    assert(encode_utf8("-"@) =~= seq![0x2Du8]);
}

/// Reads what [`spec_language`] describes.
pub fn language(input: &[u8]) -> (r: Result<(&[u8], &str), ParseError>)
    ensures
        agrees(input@, r, spec_language(input@)),
{
    broadcast use lemma_skip_twice;

    let (start, _) = take_while_m_n(input, 1, 8, ByteClass::Alpha)?;
    let ghost first = spec_take_while_m_n(input@, 1, 8, ByteClass::Alpha).used();
    let mut rest = start;
    let mut used: usize = input.len() - start.len();
    loop
        invariant
            used <= input@.len(),
            used >= first,
            spec_take_while_m_n(input@, 1, 8, ByteClass::Alpha) is Done,
            first == spec_take_while_m_n(input@, 1, 8, ByteClass::Alpha).used(),
            rest@ == input@.skip(used as int),
            spec_subtags(input@.skip(first as int)) == match spec_subtags(rest@) {
                Parsed::Done(_, m) => Parsed::Done((), (used - first + m) as nat),
                failed => failed,
            },
        ensures
            used <= input@.len(),
            spec_subtags(input@.skip(first as int)) == Parsed::Done((), (used - first) as nat),
        decreases rest@.len(),
    {
        proof {
            lemma_dash();
        }
        let after_dash = match tag(rest, "-") {
            Ok((after, _)) => after,
            Err(ParseError::Incomplete) => {
                return Err(ParseError::Incomplete);
            },
            Err(ParseError::Syntax) => {
                break ;
            },
        };
        match take_while_m_n(after_dash, 1, 8, ByteClass::Alphanumeric) {
            Ok((after, _)) => {
                proof {
                    let sub = spec_take_while_m_n(rest@.skip(1), 1, 8, ByteClass::Alphanumeric);
                    let n = 1 + sub.used();
                    assert(spec_tag(rest@, "-"@) == Parsed::Done((), 1));
                    assert(after@ == rest@.skip(n as int));
                    assert(after@ == input@.skip(used + n));
                }
                used = input.len() - after.len();
                rest = after;
            },
            Err(ParseError::Incomplete) => {
                return Err(ParseError::Incomplete);
            },
            Err(ParseError::Syntax) => {
                break ;
            },
        }
    }
    let r = Ok(split(input, used));
    textual(Ghost(input@), r, Ghost(spec_language_bytes(input@)))
}

// ----- repeated words -----
/// Zero or more words of `class`, each after the byte `lead`. A `lead`
/// that no word follows is left unread.
pub open spec fn spec_led_words(s: Seq<u8>, lead: u8, class: ByteClass) -> Parsed<Seq<Seq<char>>>
    decreases s.len(),
{
    let first = spec_byte(s, lead);
    let text = spec_word(s.skip(first.used() as int), class);
    match then(first, text) {
        Parsed::Done((_, text), n) => if 0 < n <= s.len() {
            after_items(seq![text], n, spec_led_words(s.skip(n as int), lead, class))
        } else {
            Parsed::Done(Seq::empty(), 0)
        },
        Parsed::Incomplete => Parsed::Incomplete,
        Parsed::Invalid => Parsed::Done(Seq::empty(), 0),
    }
}

/// Reads the words and pushes them onto `words`.
pub fn led_words<'a>(input: &'a [u8], lead: u8, class: ByteClass, words: &mut Vec<String>) -> (r:
    Result<(&'a [u8], ()), ParseError>)
    ensures
        match spec_led_words(input@, lead, class) {
            Parsed::Done(more, n) => {
                &&& r matches Ok((rest, _))
                &&& n <= input@.len()
                &&& rest@ == input@.skip(n as int)
                &&& final(words).deep_view() == old(words).deep_view() + more
            },
            Parsed::Incomplete => r == Err::<(&[u8], ()), ParseError>(ParseError::Incomplete),
            Parsed::Invalid => r == Err::<(&[u8], ()), ParseError>(ParseError::Syntax),
        },
{
    broadcast use lemma_skip_twice;

    let mut rest = input;
    let ghost mut read: Seq<Seq<char>> = Seq::empty();
    let ghost mut used: nat = 0;
    proof {
        assert(old(words).deep_view() + read =~= old(words).deep_view());
    }
    loop
        invariant
            used <= input@.len(),
            rest@ == input@.skip(used as int),
            words.deep_view() == old(words).deep_view() + read,
            spec_led_words(input@, lead, class) == after_items(
                read,
                used,
                spec_led_words(rest@, lead, class),
            ),
        ensures
            used <= input@.len(),
            rest@ == input@.skip(used as int),
            words.deep_view() == old(words).deep_view() + read,
            spec_led_words(input@, lead, class) == Parsed::Done(read, used),
        decreases rest@.len(),
    {
        proof {
            assert(read + Seq::<Seq<char>>::empty() =~= read);
        }
        let after_lead = match byte(rest, lead) {
            Ok((after, _)) => after,
            Err(ParseError::Incomplete) => {
                return Err(ParseError::Incomplete);
            },
            Err(ParseError::Syntax) => {
                break ;
            },
        };
        match word(after_lead, class) {
            Ok((after, text)) => {
                let ghost before = *words;
                let owned = text.to_owned();
                words.push(owned);
                proof {
                    let n = 1 + spec_word(rest@.skip(1), class).used();
                    lemma_push_deep_view(before, *words, owned);
                    assert(after@ == rest@.skip(n as int));
                    let tail = spec_led_words(after@, lead, class);
                    assert(spec_led_words(rest@, lead, class) == after_items(seq![text@], n, tail));
                    if tail is Done {
                        assert(read + (seq![text@] + tail->Done_0) =~= read.push(text@)
                            + tail->Done_0);
                    }
                    assert(old(words).deep_view() + read.push(text@) =~= (old(words).deep_view()
                        + read).push(text@));
                    read = read.push(text@);
                    used = used + n;
                }
                rest = after;
            },
            Err(ParseError::Incomplete) => {
                return Err(ParseError::Incomplete);
            },
            Err(ParseError::Syntax) => {
                break ;
            },
        }
    }
    Ok((rest, ()))
}

} // verus!
