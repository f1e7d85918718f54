//! Responses of the server, and the typed payloads they carry.

use crate::text::{decimal, decimal_string};
use vstd::prelude::*;
use vstd::string::*;

verus! {

/// The greeting that opens a session.
#[derive(Debug, Clone, PartialEq, Eq)]
pub struct Greeting {
    /// The levels of the response code; empty where the greeting has none.
    pub code: Vec<String>,
    /// The comment. Where the greeting holds a timestamp, the comment holds
    /// `<>` in its place.
    pub comment: String,
    /// The timestamp, without its angle brackets.
    pub timestamp: Option<String>,
}

/// The status line of a response: its response code and its comment.
#[derive(Debug, Clone, PartialEq, Eq)]
pub struct SingleLine {
    /// The levels of the response code; empty where the line has none.
    pub code: Vec<String>,
    pub comment: String,
}

/// A status line and the lines that follow it, up to the terminating `.`.
#[derive(Debug, Clone, PartialEq, Eq)]
pub struct MultiLine<T> {
    pub head: SingleLine,
    pub body: Vec<T>,
}

/// The outcome that the server reports: `+OK` with the payload of the
/// command, or `-ERR` with a status line. A negative response is a
/// well-formed message, not a failure to parse.
#[derive(Debug, Clone, PartialEq, Eq)]
pub enum Response<O, E> {
    /// `+OK`
    Positive(O),
    /// `-ERR`
    Negative(E),
}

/// The payload of STAT.
#[derive(Debug, Clone, PartialEq, Eq)]
pub struct DropListing {
    pub message_count: u32,
    pub maildrop_size: u32,
}

/// One line of LIST.
#[derive(Debug, Clone, PartialEq, Eq)]
pub struct ScanListing {
    pub message_id: u32,
    pub message_size: u32,
}

/// One line of UIDL.
#[derive(Debug, Clone, PartialEq, Eq)]
pub struct UniqueIdListing {
    pub message_id: u32,
    pub message_uid: String,
}

/// One line of the LANG listing.
#[derive(Debug, Clone, PartialEq, Eq)]
pub struct LanguageListing {
    pub tag: String,
    pub description: String,
}

/// When the server may delete retrieved messages.
#[derive(Debug, Clone, PartialEq, Eq)]
pub enum ExpirePolicy {
    Never,
    MinimumDays(u32),
}

/// A capability that the server announces in answer to CAPA.
#[derive(Debug, Clone, PartialEq, Eq)]
pub enum Capability {
    Top,
    User,
    Sasl { mechanisms: Vec<String> },
    RespCodes,
    LoginDelay { minimum_seconds: u32, per_user: bool },
    Pipelining,
    Expire { policy: ExpirePolicy, per_user: bool },
    Uidl,
    Implementation { text: String },
    Stls,
    AuthRespCode,
    Utf8 { in_credentials: bool },
    Lang,
    /// A capability that this library does not know.
    Other { tag: String, parameters: Vec<String> },
}

// ----- models -----
pub struct GreetingView {
    pub code: Seq<Seq<char>>,
    pub comment: Seq<char>,
    pub timestamp: Option<Seq<char>>,
}

pub struct SingleLineView {
    pub code: Seq<Seq<char>>,
    pub comment: Seq<char>,
}

pub struct MultiLineView<T> {
    pub head: SingleLineView,
    pub body: Seq<T>,
}

pub struct UniqueIdListingView {
    pub message_id: u32,
    pub message_uid: Seq<char>,
}

pub struct LanguageListingView {
    pub tag: Seq<char>,
    pub description: Seq<char>,
}

pub enum CapabilityView {
    Top,
    User,
    Sasl { mechanisms: Seq<Seq<char>> },
    RespCodes,
    LoginDelay { minimum_seconds: u32, per_user: bool },
    Pipelining,
    Expire { policy: ExpirePolicy, per_user: bool },
    Uidl,
    Implementation { text: Seq<char> },
    Stls,
    AuthRespCode,
    Utf8 { in_credentials: bool },
    Lang,
    Other { tag: Seq<char>, parameters: Seq<Seq<char>> },
}

impl DeepView for Greeting {
    type V = GreetingView;

    open spec fn deep_view(&self) -> GreetingView {
        GreetingView {
            code: self.code.deep_view(),
            comment: self.comment@,
            timestamp: self.timestamp.deep_view(),
        }
    }
}

impl View for Greeting {
    type V = GreetingView;

    open spec fn view(&self) -> GreetingView {
        self.deep_view()
    }
}

impl DeepView for SingleLine {
    type V = SingleLineView;

    open spec fn deep_view(&self) -> SingleLineView {
        SingleLineView { code: self.code.deep_view(), comment: self.comment@ }
    }
}

impl View for SingleLine {
    type V = SingleLineView;

    open spec fn view(&self) -> SingleLineView {
        self.deep_view()
    }
}

impl<T: DeepView> DeepView for MultiLine<T> {
    type V = MultiLineView<T::V>;

    open spec fn deep_view(&self) -> MultiLineView<T::V> {
        MultiLineView { head: self.head@, body: self.body.deep_view() }
    }
}

impl<T: DeepView> View for MultiLine<T> {
    type V = MultiLineView<T::V>;

    open spec fn view(&self) -> MultiLineView<T::V> {
        self.deep_view()
    }
}

impl<O: DeepView, E: DeepView> DeepView for Response<O, E> {
    type V = Response<O::V, E::V>;

    open spec fn deep_view(&self) -> Response<O::V, E::V> {
        match self {
            Response::Positive(o) => Response::Positive(o.deep_view()),
            Response::Negative(e) => Response::Negative(e.deep_view()),
        }
    }
}

impl<O: DeepView, E: DeepView> View for Response<O, E> {
    type V = Response<O::V, E::V>;

    open spec fn view(&self) -> Response<O::V, E::V> {
        self.deep_view()
    }
}

impl DeepView for DropListing {
    type V = DropListing;

    open spec fn deep_view(&self) -> DropListing {
        *self
    }
}

impl View for DropListing {
    type V = DropListing;

    open spec fn view(&self) -> DropListing {
        *self
    }
}

impl DeepView for ScanListing {
    type V = ScanListing;

    open spec fn deep_view(&self) -> ScanListing {
        *self
    }
}

impl View for ScanListing {
    type V = ScanListing;

    open spec fn view(&self) -> ScanListing {
        *self
    }
}

impl DeepView for UniqueIdListing {
    type V = UniqueIdListingView;

    open spec fn deep_view(&self) -> UniqueIdListingView {
        UniqueIdListingView { message_id: self.message_id, message_uid: self.message_uid@ }
    }
}

impl View for UniqueIdListing {
    type V = UniqueIdListingView;

    open spec fn view(&self) -> UniqueIdListingView {
        self.deep_view()
    }
}

impl DeepView for LanguageListing {
    type V = LanguageListingView;

    open spec fn deep_view(&self) -> LanguageListingView {
        LanguageListingView { tag: self.tag@, description: self.description@ }
    }
}

impl View for LanguageListing {
    type V = LanguageListingView;

    open spec fn view(&self) -> LanguageListingView {
        self.deep_view()
    }
}

impl DeepView for ExpirePolicy {
    type V = ExpirePolicy;

    open spec fn deep_view(&self) -> ExpirePolicy {
        *self
    }
}

impl View for ExpirePolicy {
    type V = ExpirePolicy;

    open spec fn view(&self) -> ExpirePolicy {
        *self
    }
}

impl DeepView for Capability {
    type V = CapabilityView;

    open spec fn deep_view(&self) -> CapabilityView {
        match self {
            Capability::Top => CapabilityView::Top,
            Capability::User => CapabilityView::User,
            Capability::Sasl { mechanisms } => CapabilityView::Sasl {
                mechanisms: mechanisms.deep_view(),
            },
            Capability::RespCodes => CapabilityView::RespCodes,
            Capability::LoginDelay { minimum_seconds, per_user } => CapabilityView::LoginDelay {
                minimum_seconds: *minimum_seconds,
                per_user: *per_user,
            },
            Capability::Pipelining => CapabilityView::Pipelining,
            Capability::Expire { policy, per_user } => CapabilityView::Expire {
                policy: *policy,
                per_user: *per_user,
            },
            Capability::Uidl => CapabilityView::Uidl,
            Capability::Implementation { text } => CapabilityView::Implementation { text: text@ },
            Capability::Stls => CapabilityView::Stls,
            Capability::AuthRespCode => CapabilityView::AuthRespCode,
            Capability::Utf8 { in_credentials } => CapabilityView::Utf8 {
                in_credentials: *in_credentials,
            },
            Capability::Lang => CapabilityView::Lang,
            Capability::Other { tag, parameters } => CapabilityView::Other {
                tag: tag@,
                parameters: parameters.deep_view(),
            },
        }
    }
}

impl View for Capability {
    type V = CapabilityView;

    open spec fn view(&self) -> CapabilityView {
        self.deep_view()
    }
}

impl<O, E> Response<O, E> {
    /// The payload of a positive response.
    pub fn unwrap(self) -> (r: O)
        requires
            self is Positive,
        ensures
            r == self->Positive_0,
    {
        match self {
            Response::Positive(o) => o,
            Response::Negative(_) => vstd::pervasive::unreached(),
        }
    }
}

// ----- the text of a capability -----
/// The parameters as they follow the head of a capability line: each
/// after one space, and nothing where there is none.
pub open spec fn spec_parameters(parts: Seq<Seq<char>>) -> Seq<char>
    decreases parts.len(),
{
    if parts.len() == 0 {
        Seq::empty()
    } else {
        spec_parameters(parts.drop_last()) + " "@ + parts.last()
    }
}

/// The policy as it is written in the EXPIRE capability.
pub open spec fn spec_policy_text(policy: ExpirePolicy) -> Seq<char> {
    match policy {
        ExpirePolicy::Never => "NEVER"@,
        ExpirePolicy::MinimumDays(days) => decimal(days as nat),
    }
}

/// ` USER` where the flag is set, and nothing where it is not.
pub open spec fn spec_user_suffix(per_user: bool) -> Seq<char> {
    if per_user {
        " USER"@
    } else {
        Seq::empty()
    }
}

impl CapabilityView {
    /// The capability line, without its line ending: the tag, and each
    /// parameter after one space.
    pub open spec fn text(self) -> Seq<char> {
        match self {
            CapabilityView::Top => "TOP"@,
            CapabilityView::User => "USER"@,
            CapabilityView::Sasl { mechanisms } => "SASL"@ + spec_parameters(mechanisms),
            CapabilityView::RespCodes => "RESP-CODES"@,
            CapabilityView::LoginDelay { minimum_seconds, per_user } => "LOGIN-DELAY "@ + decimal(
                minimum_seconds as nat,
            ) + spec_user_suffix(per_user),
            CapabilityView::Pipelining => "PIPELINING"@,
            CapabilityView::Expire { policy, per_user } => "EXPIRE "@ + spec_policy_text(policy)
                + spec_user_suffix(per_user),
            CapabilityView::Uidl => "UIDL"@,
            CapabilityView::Implementation { text } => "IMPLEMENTATION "@ + text,
            CapabilityView::Stls => "STLS"@,
            CapabilityView::AuthRespCode => "AUTH-RESP-CODE"@,
            CapabilityView::Utf8 { in_credentials } => "UTF8"@ + spec_user_suffix(in_credentials),
            CapabilityView::Lang => "LANG"@,
            CapabilityView::Other { tag, parameters } => tag + spec_parameters(parameters),
        }
    }
}

/// Appends the parameters, each after one space.
pub fn append_parameters(out: &mut String, parts: &Vec<String>)
    ensures
        final(out)@ == old(out)@ + spec_parameters(parts.deep_view()),
{
    let mut i: usize = 0;
    proof {
        assert(parts.deep_view().take(0) =~= Seq::<Seq<char>>::empty());
        assert(out@ + Seq::<char>::empty() =~= out@);
    }
    while i < parts.len()
        invariant
            i <= parts.len(),
            out@ == old(out)@ + spec_parameters(parts.deep_view().take(i as int)),
        decreases parts.len() - i,
    {
        proof {
            let before = parts.deep_view().take(i as int);
            let after = parts.deep_view().take(i + 1);
            assert(after.drop_last() =~= before);
            assert(after.last() == parts[i as int]@);
            assert(old(out)@ + spec_parameters(before) + " "@ + parts[i as int]@ =~= old(out)@
                + spec_parameters(after));
        }
        out.append(" ");
        out.append(parts[i].as_str());
        i += 1;
    }
    assert(parts.deep_view().take(parts.len() as int) =~= parts.deep_view());
}

impl ExpirePolicy {
    /// The policy as it is written in the EXPIRE capability.
    pub fn to_string(&self) -> (r: String)
        ensures
            r@ == spec_policy_text(*self),
    {
        match self {
            ExpirePolicy::Never => "NEVER".to_owned(),
            ExpirePolicy::MinimumDays(days) => decimal_string(*days),
        }
    }
}

impl Capability {
    /// The capability line, without its line ending.
    pub fn to_string(&self) -> (r: String)
        ensures
            r@ == self@.text(),
    {
        match self {
            Capability::Top => "TOP".to_owned(),
            Capability::User => "USER".to_owned(),
            Capability::Sasl { mechanisms } => {
                let mut out = "SASL".to_owned();
                append_parameters(&mut out, mechanisms);
                out
            },
            Capability::RespCodes => "RESP-CODES".to_owned(),
            Capability::LoginDelay { minimum_seconds, per_user } => {
                let mut out = "LOGIN-DELAY ".to_owned();
                out.append(decimal_string(*minimum_seconds).as_str());
                if *per_user {
                    out.append(" USER");
                }
                assert(out@ =~= self@.text());
                out
            },
            Capability::Pipelining => "PIPELINING".to_owned(),
            Capability::Expire { policy, per_user } => {
                let mut out = "EXPIRE ".to_owned();
                out.append(policy.to_string().as_str());
                if *per_user {
                    out.append(" USER");
                }
                assert(out@ =~= self@.text());
                out
            },
            Capability::Uidl => "UIDL".to_owned(),
            Capability::Implementation { text } => {
                let mut out = "IMPLEMENTATION ".to_owned();
                out.append(text.as_str());
                out
            },
            Capability::Stls => "STLS".to_owned(),
            Capability::AuthRespCode => "AUTH-RESP-CODE".to_owned(),
            Capability::Utf8 { in_credentials } => {
                let mut out = "UTF8".to_owned();
                if *in_credentials {
                    out.append(" USER");
                }
                assert(out@ =~= self@.text());
                out
            },
            Capability::Lang => "LANG".to_owned(),
            Capability::Other { tag, parameters } => {
                let mut out = tag.clone();
                append_parameters(&mut out, parameters);
                out
            },
        }
    }
}

} // verus!
