//! Commands, and their canonical wire form.

use crate::text::{decimal, decimal_string};
use vstd::prelude::*;
use vstd::string::*;
use vstd::utf8::*;

verus! {

/// A command of the client, one variant for each verb. A verb with an
/// optional operand has two variants: the bare one and the one with the operand.
#[derive(Clone, Debug, Eq, PartialEq, Hash)]
pub enum Command {
    /// USER name
    User(String),
    /// PASS string
    Pass(String),
    /// STAT
    Stat,
    /// LIST
    ListAll,
    /// LIST msg
    List { msg: u32 },
    /// RETR msg
    Retr { msg: u32 },
    /// DELE msg
    Dele { msg: u32 },
    /// NOOP
    Noop,
    /// RSET
    Rset,
    /// QUIT
    Quit,
    /// APOP name digest
    Apop { name: String, digest: String },
    /// TOP msg n
    Top { msg: u32, n: u32 },
    /// UIDL
    UidlAll,
    /// UIDL msg
    Uidl { msg: u32 },
    /// CAPA
    Capa,
    /// STLS
    Stls,
    /// AUTH
    AuthAll,
    /// AUTH mechanism [initial-response]
    Auth { mechanism: String, initial_response: Option<String> },
    /// UTF8
    Utf8,
    /// LANG
    LangAll,
    /// LANG language-tag, or LANG *
    Lang { lang_or_wild: Language },
}

/// The operand of LANG: a language tag, or the wildcard `*`.
#[derive(Clone, Debug, Eq, PartialEq, Hash)]
pub enum Language {
    Lang(String),
    Wild,
}

/// The mathematical model of a `Language`.
pub enum LanguageView {
    Lang(Seq<char>),
    Wild,
}

/// The mathematical model of a `Command`.
pub enum CommandView {
    User(Seq<char>),
    Pass(Seq<char>),
    Stat,
    ListAll,
    List { msg: u32 },
    Retr { msg: u32 },
    Dele { msg: u32 },
    Noop,
    Rset,
    Quit,
    Apop { name: Seq<char>, digest: Seq<char> },
    Top { msg: u32, n: u32 },
    UidlAll,
    Uidl { msg: u32 },
    Capa,
    Stls,
    AuthAll,
    Auth { mechanism: Seq<char>, initial_response: Option<Seq<char>> },
    Utf8,
    LangAll,
    Lang { lang_or_wild: LanguageView },
}

impl DeepView for Language {
    type V = LanguageView;

    open spec fn deep_view(&self) -> LanguageView {
        match self {
            Language::Lang(tag) => LanguageView::Lang(tag@),
            Language::Wild => LanguageView::Wild,
        }
    }
}

impl View for Language {
    type V = LanguageView;

    open spec fn view(&self) -> LanguageView {
        self.deep_view()
    }
}

impl DeepView for Command {
    type V = CommandView;

    open spec fn deep_view(&self) -> CommandView {
        match self {
            Command::User(name) => CommandView::User(name@),
            Command::Pass(pass) => CommandView::Pass(pass@),
            Command::Stat => CommandView::Stat,
            Command::ListAll => CommandView::ListAll,
            Command::List { msg } => CommandView::List { msg: *msg },
            Command::Retr { msg } => CommandView::Retr { msg: *msg },
            Command::Dele { msg } => CommandView::Dele { msg: *msg },
            Command::Noop => CommandView::Noop,
            Command::Rset => CommandView::Rset,
            Command::Quit => CommandView::Quit,
            Command::Apop { name, digest } => CommandView::Apop { name: name@, digest: digest@ },
            Command::Top { msg, n } => CommandView::Top { msg: *msg, n: *n },
            Command::UidlAll => CommandView::UidlAll,
            Command::Uidl { msg } => CommandView::Uidl { msg: *msg },
            Command::Capa => CommandView::Capa,
            Command::Stls => CommandView::Stls,
            Command::AuthAll => CommandView::AuthAll,
            Command::Auth { mechanism, initial_response } => CommandView::Auth {
                mechanism: mechanism@,
                initial_response: initial_response.deep_view(),
            },
            Command::Utf8 => CommandView::Utf8,
            Command::LangAll => CommandView::LangAll,
            Command::Lang { lang_or_wild } => CommandView::Lang { lang_or_wild: lang_or_wild@ },
        }
    }
}

impl View for Command {
    type V = CommandView;

    open spec fn view(&self) -> CommandView {
        self.deep_view()
    }
}

impl LanguageView {
    /// The operand as it is written on the wire.
    pub open spec fn text(self) -> Seq<char> {
        match self {
            LanguageView::Lang(tag) => tag,
            LanguageView::Wild => "*"@,
        }
    }
}

impl CommandView {
    /// The name of the variant, in capitals.
    pub open spec fn name(self) -> Seq<char> {
        match self {
            CommandView::User(_) => "USER"@,
            CommandView::Pass(_) => "PASS"@,
            CommandView::Stat => "STAT"@,
            CommandView::ListAll => "LISTALL"@,
            CommandView::List { .. } => "LIST"@,
            CommandView::Retr { .. } => "RETR"@,
            CommandView::Dele { .. } => "DELE"@,
            CommandView::Noop => "NOOP"@,
            CommandView::Rset => "RSET"@,
            CommandView::Quit => "QUIT"@,
            CommandView::Apop { .. } => "APOP"@,
            CommandView::Top { .. } => "TOP"@,
            CommandView::UidlAll => "UIDLALL"@,
            CommandView::Uidl { .. } => "UIDL"@,
            CommandView::Capa => "CAPA"@,
            CommandView::Stls => "STLS"@,
            CommandView::AuthAll => "AUTHALL"@,
            CommandView::Auth { .. } => "AUTH"@,
            CommandView::Utf8 => "UTF8"@,
            CommandView::LangAll => "LANGALL"@,
            CommandView::Lang { .. } => "LANG"@,
        }
    }

    /// The command line without its line ending: the keyword, then each
    /// operand after one space.
    pub open spec fn line(self) -> Seq<char> {
        match self {
            CommandView::User(name) => "USER "@ + name,
            CommandView::Pass(pass) => "PASS "@ + pass,
            CommandView::Stat => "STAT"@,
            CommandView::ListAll => "LIST"@,
            CommandView::List { msg } => "LIST "@ + decimal(msg as nat),
            CommandView::Retr { msg } => "RETR "@ + decimal(msg as nat),
            CommandView::Dele { msg } => "DELE "@ + decimal(msg as nat),
            CommandView::Noop => "NOOP"@,
            CommandView::Rset => "RSET"@,
            CommandView::Quit => "QUIT"@,
            CommandView::Apop { name, digest } => "APOP "@ + name + " "@ + digest,
            CommandView::Top { msg, n } => "TOP "@ + decimal(msg as nat) + " "@ + decimal(n as nat),
            CommandView::UidlAll => "UIDL"@,
            CommandView::Uidl { msg } => "UIDL "@ + decimal(msg as nat),
            CommandView::Capa => "CAPA"@,
            CommandView::Stls => "STLS"@,
            CommandView::AuthAll => "AUTH"@,
            CommandView::Auth { mechanism, initial_response } => match initial_response {
                Some(response) => "AUTH "@ + mechanism + " "@ + response,
                None => "AUTH "@ + mechanism,
            },
            CommandView::Utf8 => "UTF8"@,
            CommandView::LangAll => "LANG"@,
            CommandView::Lang { lang_or_wild } => "LANG "@ + lang_or_wild.text(),
        }
    }

    /// The wire form: the command line and CR LF, encoded as UTF-8.
    pub open spec fn wire(self) -> Seq<u8> {
        encode_utf8(self.line() + "\r\n"@)
    }
}

impl Language {
    /// The operand as it is written on the wire.
    pub fn to_string(&self) -> (r: String)
        ensures
            r@ == self@.text(),
    {
        match self {
            Language::Lang(tag) => tag.clone(),
            Language::Wild => "*".to_owned(),
        }
    }
}

/// `head` followed by `operand`.
fn with_operand(head: &str, operand: &str) -> (r: String)
    ensures
        r@ == head@ + operand@,
{
    let mut out = head.to_owned();
    out.append(operand);
    out
}

/// `head` followed by two operands with a space between them.
fn with_operands(head: &str, first: &str, second: &str) -> (r: String)
    ensures
        r@ == head@ + first@ + " "@ + second@,
{
    let mut out = head.to_owned();
    out.append(first);
    out.append(" ");
    out.append(second);
    out
}

impl Command {
    /// The name of the variant, in capitals.
    pub fn name(&self) -> (r: &'static str)
        ensures
            r@ == self@.name(),
    {
        match self {
            Command::User(_) => "USER",
            Command::Pass(_) => "PASS",
            Command::Stat => "STAT",
            Command::ListAll => "LISTALL",
            Command::List { .. } => "LIST",
            Command::Retr { .. } => "RETR",
            Command::Dele { .. } => "DELE",
            Command::Noop => "NOOP",
            Command::Rset => "RSET",
            Command::Quit => "QUIT",
            Command::Apop { .. } => "APOP",
            Command::Top { .. } => "TOP",
            Command::UidlAll => "UIDLALL",
            Command::Uidl { .. } => "UIDL",
            Command::Capa => "CAPA",
            Command::Stls => "STLS",
            Command::AuthAll => "AUTHALL",
            Command::Auth { .. } => "AUTH",
            Command::Utf8 => "UTF8",
            Command::LangAll => "LANGALL",
            Command::Lang { .. } => "LANG",
        }
    }

    /// The command line without its line ending.
    fn line(&self) -> (r: String)
        ensures
            r@ == self@.line(),
    {
        match self {
            Command::User(name) => with_operand("USER ", name.as_str()),
            Command::Pass(pass) => with_operand("PASS ", pass.as_str()),
            Command::Stat => "STAT".to_owned(),
            Command::ListAll => "LIST".to_owned(),
            Command::List { msg } => with_operand("LIST ", decimal_string(*msg).as_str()),
            Command::Retr { msg } => with_operand("RETR ", decimal_string(*msg).as_str()),
            Command::Dele { msg } => with_operand("DELE ", decimal_string(*msg).as_str()),
            Command::Noop => "NOOP".to_owned(),
            Command::Rset => "RSET".to_owned(),
            Command::Quit => "QUIT".to_owned(),
            Command::Apop { name, digest } => with_operands(
                "APOP ",
                name.as_str(),
                digest.as_str(),
            ),
            Command::Top { msg, n } => with_operands(
                "TOP ",
                decimal_string(*msg).as_str(),
                decimal_string(*n).as_str(),
            ),
            Command::UidlAll => "UIDL".to_owned(),
            Command::Uidl { msg } => with_operand("UIDL ", decimal_string(*msg).as_str()),
            Command::Capa => "CAPA".to_owned(),
            Command::Stls => "STLS".to_owned(),
            Command::AuthAll => "AUTH".to_owned(),
            Command::Auth { mechanism, initial_response } => match initial_response {
                Some(response) => with_operands("AUTH ", mechanism.as_str(), response.as_str()),
                None => with_operand("AUTH ", mechanism.as_str()),
            },
            Command::Utf8 => "UTF8".to_owned(),
            Command::LangAll => "LANG".to_owned(),
            Command::Lang { lang_or_wild } => with_operand(
                "LANG ",
                lang_or_wild.to_string().as_str(),
            ),
        }
    }

    /// The bytes of the command as it is sent: keyword, operands, CR LF.
    pub fn serialize(&self) -> (r: Vec<u8>)
        ensures
            r@ == self@.wire(),
    {
        let mut text = self.line();
        text.append("\r\n");
        text.as_str().as_bytes_vec()
    }
}

} // verus!
