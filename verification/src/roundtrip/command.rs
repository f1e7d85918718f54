//! Commands are read back as they were written.

use crate::parse::command::{
    spec_apop, spec_auth, spec_auth_type, spec_auth_with, spec_base64, spec_capa, spec_dele,
    spec_initial_response, spec_keyword_space, spec_lang, spec_lang_or_wild, spec_list, spec_noop,
    spec_padding, spec_pass, spec_quit, spec_retr, spec_rset, spec_space_initial_response,
    spec_space_lang_or_wild, spec_stat, spec_stls, spec_top, spec_uidl, spec_user, spec_utf8,
};
use crate::parse::token::{
    lemma_run_end, lemma_tag_rejects, optional, run_len, spec_language, spec_language_bytes,
    spec_line_ending, spec_line_text, spec_run_text, spec_space, spec_subtags, spec_take_while,
    spec_take_while_m_n, ByteClass, Parsed,
};
use crate::parse::{spec_command, spec_verb};
use crate::roundtrip::{
    all_of, begins_like, crlf, lemma_ascii_text_of_class, lemma_text_without_line_endings,
    lemma_text_without_spaces, lemma_bare_keyword_reads, lemma_keyword_number_reads,
    lemma_keyword_reads, lemma_keyword_space_reads, lemma_line_text_reads, lemma_literal,
    lemma_run_len_append, lemma_run_text_reads, lemma_signature_rejects,
    lemma_space_number_reads, lemma_split, lemma_tag_reads, lemma_text_of_encoding,
    lemma_wire_of_keyword, lemma_wire_of_operand, lemma_wire_of_operands, signature, sp,
};
use crate::text::decimal;
use crate::types::command::{CommandView, LanguageView};
use vstd::prelude::*;
use vstd::string::*;
use vstd::utf8::*;

verus! {

// ----- the commands that are read back -----
/// The longest prefix of base64 bytes is followed by nothing, by `=` or
/// by `==`.
pub open spec fn is_base64_token(bytes: Seq<u8>) -> bool {
    let body = run_len(bytes, ByteClass::Base64);
    let padding = bytes.skip(body as int);
    padding == Seq::<u8>::empty() || padding == seq![0x3Du8] || padding == seq![0x3Du8, 0x3Du8]
}

/// Subtags: each a `-` and one to eight letters or digits.
pub open spec fn is_subtags(bytes: Seq<u8>) -> bool
    decreases bytes.len(),
{
    bytes.len() == 0 || {
        let run = run_len(bytes.skip(1), ByteClass::Alphanumeric);
        &&& bytes[0] == 0x2D
        &&& 1 <= run <= 8
        &&& 1 + run <= bytes.len()
        &&& is_subtags(bytes.skip(1 + run as int))
    }
}

/// A language tag: one to eight letters, and subtags.
pub open spec fn is_language_tag(bytes: Seq<u8>) -> bool {
    let run = run_len(bytes, ByteClass::Alpha);
    1 <= run <= 8 && is_subtags(bytes.skip(run as int))
}

/// The commands that are read back as they were written: those whose
/// operands the grammar can tell apart and hand out unchanged.
///
/// A name or a password holds no CR and no LF. The name of APOP holds no
/// space, and its digest no CR and no LF. A mechanism is one or more letters,
/// digits, `-` or `_`; an initial response is a base64 token. A language is a
/// language tag.
pub open spec fn is_canonical_command(c: CommandView) -> bool {
    match c {
        CommandView::User(name) => all_of(encode_utf8(name), ByteClass::Line),
        CommandView::Pass(pass) => all_of(encode_utf8(pass), ByteClass::Line),
        CommandView::Apop { name, digest } => all_of(encode_utf8(name), ByteClass::NotSpace)
            && all_of(encode_utf8(digest), ByteClass::Line),
        CommandView::Auth { mechanism, initial_response } => {
            &&& mechanism.len() > 0
            &&& all_of(encode_utf8(mechanism), ByteClass::Mechanism)
            &&& initial_response matches Some(response) ==> is_base64_token(
                encode_utf8(response),
            )
        },
        CommandView::Lang { lang_or_wild: LanguageView::Lang(tag) } => is_language_tag(
            encode_utf8(tag),
        ),
        _ => true,
    }
}

/// No character of the text is CR or LF.
pub open spec fn has_no_line_ending(text: Seq<char>) -> bool {
    forall|j: int| 0 <= j < text.len() ==> #[trigger] text[j] != '\r' && text[j] != '\n'
}

/// No character of the text is a space.
pub open spec fn has_no_space(text: Seq<char>) -> bool {
    forall|j: int| 0 <= j < text.len() ==> #[trigger] text[j] != ' '
}

/// One or more ASCII letters, digits, `-` or `_`.
pub open spec fn is_mechanism_name(text: Seq<char>) -> bool {
    &&& text.len() > 0
    &&& is_ascii_chars(text)
    &&& forall|j: int|
        0 <= j < text.len() ==> ByteClass::Mechanism.spec_holds(#[trigger] text[j] as u8)
}

/// Canonical commands, told by their characters: a name or a password
/// without CR and LF; for APOP a name without a space and a digest without CR
/// and LF; for AUTH without an initial response an ASCII mechanism name. The
/// commands without text are canonical as they stand.
pub proof fn lemma_canonical_by_characters(c: CommandView)
    requires
        match c {
            CommandView::User(name) => has_no_line_ending(name),
            CommandView::Pass(pass) => has_no_line_ending(pass),
            CommandView::Apop { name, digest } => has_no_space(name) && has_no_line_ending(digest),
            CommandView::Auth { mechanism, initial_response } => is_mechanism_name(mechanism)
                && initial_response is None,
            CommandView::Lang { lang_or_wild } => lang_or_wild is Wild,
            _ => true,
        },
    ensures
        is_canonical_command(c),
{
    match c {
        CommandView::User(name) => lemma_text_without_line_endings(name),
        CommandView::Pass(pass) => lemma_text_without_line_endings(pass),
        CommandView::Apop { name, digest } => {
            lemma_text_without_spaces(name);
            lemma_text_without_line_endings(digest);
        },
        CommandView::Auth { mechanism, .. } => lemma_ascii_text_of_class(
            mechanism,
            ByteClass::Mechanism,
        ),
        _ => {},
    }
}

// ----- the keywords of the verbs -----
/// The first three bytes of each keyword.
proof fn lemma_signatures()
    ensures
        signature(encode_utf8("USER"@)) == (0x75u8, 0x73u8, 0x65u8),
        signature(encode_utf8("PASS"@)) == (0x70u8, 0x61u8, 0x73u8),
        signature(encode_utf8("APOP"@)) == (0x61u8, 0x70u8, 0x6Fu8),
        signature(encode_utf8("STLS"@)) == (0x73u8, 0x74u8, 0x6Cu8),
        signature(encode_utf8("CAPA"@)) == (0x63u8, 0x61u8, 0x70u8),
        signature(encode_utf8("QUIT"@)) == (0x71u8, 0x75u8, 0x69u8),
        signature(encode_utf8("STAT"@)) == (0x73u8, 0x74u8, 0x61u8),
        signature(encode_utf8("LIST"@)) == (0x6Cu8, 0x69u8, 0x73u8),
        signature(encode_utf8("RETR"@)) == (0x72u8, 0x65u8, 0x74u8),
        signature(encode_utf8("DELE"@)) == (0x64u8, 0x65u8, 0x6Cu8),
        signature(encode_utf8("NOOP"@)) == (0x6Eu8, 0x6Fu8, 0x6Fu8),
        signature(encode_utf8("RSET"@)) == (0x72u8, 0x73u8, 0x65u8),
        signature(encode_utf8("TOP"@)) == (0x74u8, 0x6Fu8, 0x70u8),
        signature(encode_utf8("UIDL"@)) == (0x75u8, 0x69u8, 0x64u8),
        signature(encode_utf8("AUTH"@)) == (0x61u8, 0x75u8, 0x74u8),
        signature(encode_utf8("UTF8"@)) == (0x75u8, 0x74u8, 0x66u8),
        signature(encode_utf8("LANG"@)) == (0x6Cu8, 0x61u8, 0x6Eu8),
        encode_utf8("USER"@).len() == 4,
        encode_utf8("PASS"@).len() == 4,
        encode_utf8("APOP"@).len() == 4,
        encode_utf8("STLS"@).len() == 4,
        encode_utf8("CAPA"@).len() == 4,
        encode_utf8("QUIT"@).len() == 4,
        encode_utf8("STAT"@).len() == 4,
        encode_utf8("LIST"@).len() == 4,
        encode_utf8("RETR"@).len() == 4,
        encode_utf8("DELE"@).len() == 4,
        encode_utf8("NOOP"@).len() == 4,
        encode_utf8("RSET"@).len() == 4,
        encode_utf8("TOP"@).len() == 3,
        encode_utf8("UIDL"@).len() == 4,
        encode_utf8("AUTH"@).len() == 4,
        encode_utf8("UTF8"@).len() == 4,
        encode_utf8("LANG"@).len() == 4,
{
    reveal_strlit("USER");
    reveal_strlit("PASS");
    reveal_strlit("APOP");
    reveal_strlit("STLS");
    reveal_strlit("CAPA");
    reveal_strlit("QUIT");
    reveal_strlit("STAT");
    reveal_strlit("LIST");
    reveal_strlit("RETR");
    reveal_strlit("DELE");
    reveal_strlit("NOOP");
    reveal_strlit("RSET");
    reveal_strlit("TOP");
    reveal_strlit("UIDL");
    reveal_strlit("AUTH");
    reveal_strlit("UTF8");
    reveal_strlit("LANG");
    lemma_literal("USER"@);
    lemma_literal("PASS"@);
    lemma_literal("APOP"@);
    lemma_literal("STLS"@);
    lemma_literal("CAPA"@);
    lemma_literal("QUIT"@);
    lemma_literal("STAT"@);
    lemma_literal("LIST"@);
    lemma_literal("RETR"@);
    lemma_literal("DELE"@);
    lemma_literal("NOOP"@);
    lemma_literal("RSET"@);
    lemma_literal("TOP"@);
    lemma_literal("UIDL"@);
    lemma_literal("AUTH"@);
    lemma_literal("UTF8"@);
    lemma_literal("LANG"@);
}

/// The keyword is one of the seventeen.
pub open spec fn is_verb(keyword: Seq<char>) -> bool {
    keyword == "USER"@ || keyword == "PASS"@ || keyword == "APOP"@ || keyword == "STLS"@
        || keyword == "CAPA"@ || keyword == "QUIT"@ || keyword == "STAT"@ || keyword == "LIST"@
        || keyword == "RETR"@ || keyword == "DELE"@ || keyword == "NOOP"@ || keyword == "RSET"@
        || keyword == "TOP"@ || keyword == "UIDL"@ || keyword == "AUTH"@ || keyword == "UTF8"@
        || keyword == "LANG"@
}

/// A line that begins with the bytes of a keyword begins like it.
proof fn lemma_begins_with(s: Seq<u8>, keyword: Seq<char>, rest: Seq<u8>)
    requires
        is_verb(keyword),
        s =~= encode_utf8(keyword) + rest,
    ensures
        begins_like(s, keyword),
{
    let k = encode_utf8(keyword);
    lemma_signatures();
    assert(s[0] == k[0]);
    assert(s[1] == k[1]);
    assert(s[2] == k[2]);
}

/// An input that begins like the keyword of a verb is read by the rule of
/// that verb, unless that rule refuses it.
pub proof fn lemma_verb_by_keyword(s: Seq<u8>)
    requires
        s.len() >= 3,
    ensures
        begins_like(s, "USER"@) && !(spec_user(s) is Invalid) ==> spec_verb(s) == spec_user(s),
        begins_like(s, "PASS"@) && !(spec_pass(s) is Invalid) ==> spec_verb(s) == spec_pass(s),
        begins_like(s, "APOP"@) && !(spec_apop(s) is Invalid) ==> spec_verb(s) == spec_apop(s),
        begins_like(s, "STLS"@) && !(spec_stls(s) is Invalid) ==> spec_verb(s) == spec_stls(s),
        begins_like(s, "CAPA"@) && !(spec_capa(s) is Invalid) ==> spec_verb(s) == spec_capa(s),
        begins_like(s, "QUIT"@) && !(spec_quit(s) is Invalid) ==> spec_verb(s) == spec_quit(s),
        begins_like(s, "STAT"@) && !(spec_stat(s) is Invalid) ==> spec_verb(s) == spec_stat(s),
        begins_like(s, "LIST"@) && !(spec_list(s) is Invalid) ==> spec_verb(s) == spec_list(s),
        begins_like(s, "RETR"@) && !(spec_retr(s) is Invalid) ==> spec_verb(s) == spec_retr(s),
        begins_like(s, "DELE"@) && !(spec_dele(s) is Invalid) ==> spec_verb(s) == spec_dele(s),
        begins_like(s, "NOOP"@) && !(spec_noop(s) is Invalid) ==> spec_verb(s) == spec_noop(s),
        begins_like(s, "RSET"@) && !(spec_rset(s) is Invalid) ==> spec_verb(s) == spec_rset(s),
        begins_like(s, "TOP"@) && !(spec_top(s) is Invalid) ==> spec_verb(s) == spec_top(s),
        begins_like(s, "UIDL"@) && !(spec_uidl(s) is Invalid) ==> spec_verb(s) == spec_uidl(s),
        begins_like(s, "AUTH"@) && !(spec_auth(s) is Invalid) ==> spec_verb(s) == spec_auth(s),
        begins_like(s, "UTF8"@) && !(spec_utf8(s) is Invalid) ==> spec_verb(s) == spec_utf8(s),
        begins_like(s, "LANG"@) ==> spec_verb(s) == spec_lang(s),
{
    reveal(spec_verb);
    lemma_signatures();
    lemma_signature_rejects(s, "USER"@);
    lemma_signature_rejects(s, "PASS"@);
    lemma_signature_rejects(s, "APOP"@);
    lemma_signature_rejects(s, "STLS"@);
    lemma_signature_rejects(s, "CAPA"@);
    lemma_signature_rejects(s, "QUIT"@);
    lemma_signature_rejects(s, "STAT"@);
    lemma_signature_rejects(s, "LIST"@);
    lemma_signature_rejects(s, "RETR"@);
    lemma_signature_rejects(s, "DELE"@);
    lemma_signature_rejects(s, "NOOP"@);
    lemma_signature_rejects(s, "RSET"@);
    lemma_signature_rejects(s, "TOP"@);
    lemma_signature_rejects(s, "UIDL"@);
    lemma_signature_rejects(s, "AUTH"@);
    lemma_signature_rejects(s, "UTF8"@);
    lemma_signature_rejects(s, "LANG"@);
}

/// The literals that hold a keyword and a space, and the small literals.
proof fn lemma_literals()
    ensures
        "USER "@ == "USER"@ + " "@,
        "PASS "@ == "PASS"@ + " "@,
        "LIST "@ == "LIST"@ + " "@,
        "RETR "@ == "RETR"@ + " "@,
        "DELE "@ == "DELE"@ + " "@,
        "APOP "@ == "APOP"@ + " "@,
        "TOP "@ == "TOP"@ + " "@,
        "UIDL "@ == "UIDL"@ + " "@,
        "AUTH "@ == "AUTH"@ + " "@,
        "LANG "@ == "LANG"@ + " "@,
        encode_utf8("*"@) == seq![0x2Au8],
        encode_utf8("="@) == seq![0x3Du8],
        encode_utf8("=="@) == seq![0x3Du8, 0x3Du8],
        encode_utf8("-"@) == seq![0x2Du8],
{
    reveal_strlit("USER");
    reveal_strlit("PASS");
    reveal_strlit("APOP");
    reveal_strlit("LIST");
    reveal_strlit("RETR");
    reveal_strlit("DELE");
    reveal_strlit("TOP");
    reveal_strlit("UIDL");
    reveal_strlit("AUTH");
    reveal_strlit("LANG");
    reveal_strlit("USER ");
    reveal_strlit("PASS ");
    reveal_strlit("APOP ");
    reveal_strlit("LIST ");
    reveal_strlit("RETR ");
    reveal_strlit("DELE ");
    reveal_strlit("TOP ");
    reveal_strlit("UIDL ");
    reveal_strlit("AUTH ");
    reveal_strlit("LANG ");
    reveal_strlit(" ");
    reveal_strlit("*");
    reveal_strlit("=");
    reveal_strlit("==");
    reveal_strlit("-");
    assert("USER "@ =~= "USER"@ + " "@);
    assert("PASS "@ =~= "PASS"@ + " "@);
    assert("LIST "@ =~= "LIST"@ + " "@);
    assert("RETR "@ =~= "RETR"@ + " "@);
    assert("DELE "@ =~= "DELE"@ + " "@);
    assert("APOP "@ =~= "APOP"@ + " "@);
    assert("TOP "@ =~= "TOP"@ + " "@);
    assert("UIDL "@ =~= "UIDL"@ + " "@);
    assert("AUTH "@ =~= "AUTH"@ + " "@);
    assert("LANG "@ =~= "LANG"@ + " "@);
    lemma_literal("*"@);
    lemma_literal("="@);
    lemma_literal("=="@);
    lemma_literal("-"@);
    assert(encode_utf8("*"@) =~= seq![0x2Au8]);
    assert(encode_utf8("="@) =~= seq![0x3Du8]);
    assert(encode_utf8("=="@) =~= seq![0x3Du8, 0x3Du8]);
    assert(encode_utf8("-"@) =~= seq![0x2Du8]);
}

/// A verb that has read everything but the final CR LF makes a command.
proof fn lemma_command_of_verb(s: Seq<u8>, c: CommandView, n: nat)
    requires
        spec_verb(s) == Parsed::Done(c, n),
        s.len() == n + 2,
        s.skip(n as int) == crlf(),
    ensures
        spec_command(s) == Parsed::Done(c, s.len()),
{
    assert(spec_line_ending(crlf()) == Parsed::Done((), 2));
}

/// A line that begins with a keyword and is read by a rule up to its
/// final CR LF is read back as a command, where the verbs agree with the rule.
proof fn lemma_command_of_rule(
    s: Seq<u8>,
    keyword: Seq<char>,
    rest: Seq<u8>,
    rule: Parsed<CommandView>,
    c: CommandView,
    n: nat,
)
    requires
        spec_verb(s) == rule,
        rule == Parsed::Done(c, n),
        s.len() == n + 2,
        s.skip(n as int) == crlf(),
    ensures
        spec_command(s) == Parsed::Done(c, s.len()),
{
    lemma_command_of_verb(s, c, n);
}

// ----- the commands without operands -----
/// The commands without operands are read back.
proof fn lemma_plain_commands(c: CommandView)
    requires
        c is Stat || c is ListAll || c is Noop || c is Rset || c is Quit || c is UidlAll
            || c is Capa || c is Stls || c is AuthAll || c is Utf8 || c is LangAll,
    ensures
        spec_command(c.wire()) == Parsed::Done(c, c.wire().len()),
{
    let keyword = c.line();
    let k = encode_utf8(keyword);
    let s = k + crlf();
    lemma_wire_of_keyword(keyword);
    lemma_bare_keyword_reads(keyword);
    let rule = match c {
        CommandView::Stat => spec_stat(s),
        CommandView::ListAll => spec_list(s),
        CommandView::Noop => spec_noop(s),
        CommandView::Rset => spec_rset(s),
        CommandView::Quit => spec_quit(s),
        CommandView::UidlAll => spec_uidl(s),
        CommandView::Capa => spec_capa(s),
        CommandView::Stls => spec_stls(s),
        CommandView::AuthAll => spec_auth(s),
        CommandView::Utf8 => spec_utf8(s),
        _ => spec_lang(s),
    };
    assert(rule == Parsed::Done(c, k.len())) by {
        if c is AuthAll {
            assert(spec_auth_with(s) == Parsed::<CommandView>::Invalid);
        }
    }
    lemma_begins_with(s, keyword, crlf());
    assert(spec_verb(s) == rule) by {
        lemma_verb_by_keyword(s);
    }
    lemma_command_of_rule(s, keyword, crlf(), rule, c, k.len());
}

// ----- the commands with numbers -----
/// The wire form of a command with one number.
proof fn lemma_numbered_wire(c: CommandView, keyword: Seq<char>, number: u32)
    requires
        c == (CommandView::List { msg: number }) && keyword == "LIST"@ || c == (CommandView::Retr {
            msg: number,
        }) && keyword == "RETR"@ || c == (CommandView::Dele { msg: number }) && keyword
            == "DELE"@ || c == (CommandView::Uidl { msg: number }) && keyword == "UIDL"@,
    ensures
        c.wire() == encode_utf8(keyword) + sp() + encode_utf8(decimal(number as nat)) + crlf(),
{
    assert(c.line() == keyword + " "@ + decimal(number as nat)) by {
        lemma_literals();
    }
    lemma_wire_of_operand(keyword, decimal(number as nat));
}

/// The commands with one number are read back.
proof fn lemma_numbered_commands(c: CommandView, keyword: Seq<char>, number: u32)
    requires
        c == (CommandView::List { msg: number }) && keyword == "LIST"@ || c == (CommandView::Retr {
            msg: number,
        }) && keyword == "RETR"@ || c == (CommandView::Dele { msg: number }) && keyword
            == "DELE"@ || c == (CommandView::Uidl { msg: number }) && keyword == "UIDL"@,
    ensures
        spec_command(c.wire()) == Parsed::Done(c, c.wire().len()),
{
    let k = encode_utf8(keyword);
    let d = encode_utf8(decimal(number as nat));
    let s = k + sp() + d + crlf();
    let n = k.len() + 1 + d.len();
    lemma_numbered_wire(c, keyword, number);
    lemma_keyword_number_reads(keyword, number, crlf());
    let rule = match c {
        CommandView::List { .. } => spec_list(s),
        CommandView::Retr { .. } => spec_retr(s),
        CommandView::Dele { .. } => spec_dele(s),
        _ => spec_uidl(s),
    };
    assert(rule == Parsed::Done(c, n));
    lemma_begins_with(s, keyword, sp() + d + crlf());
    assert(spec_verb(s) == rule) by {
        lemma_verb_by_keyword(s);
    }
    lemma_command_of_rule(s, keyword, sp() + d + crlf(), rule, c, n);
}

/// The wire form of TOP.
proof fn lemma_top_wire(msg: u32, n: u32)
    ensures
        (CommandView::Top { msg, n }).wire() == encode_utf8("TOP"@) + sp() + encode_utf8(
            decimal(msg as nat),
        ) + (sp() + encode_utf8(decimal(n as nat)) + crlf()),
{
    let c = CommandView::Top { msg, n };
    assert(c.line() == "TOP"@ + " "@ + decimal(msg as nat) + " "@ + decimal(n as nat)) by {
        lemma_literals();
    }
    lemma_wire_of_operands("TOP"@, decimal(msg as nat), decimal(n as nat));
}

/// A line of TOP is read by its rule.
proof fn lemma_top_line_reads(msg: u32, n: u32, s: Seq<u8>)
    requires
        s == encode_utf8("TOP"@) + sp() + encode_utf8(decimal(msg as nat)) + (sp() + encode_utf8(
            decimal(n as nat),
        ) + crlf()),
    ensures
        spec_top(s) == Parsed::Done(CommandView::Top { msg, n }, (s.len() - 2) as nat),
        s.len() >= 2,
        s.skip(s.len() - 2) == crlf(),
{
    let d2 = encode_utf8(decimal(n as nat));
    let rest = sp() + d2 + crlf();
    lemma_space_number_reads(n, crlf());
    lemma_keyword_number_reads("TOP"@, msg, rest);
    let head = crate::parse::command::spec_keyword_number(s, "TOP"@);
    assert(s.skip(head.used() as int) == rest);
    assert(s.skip((head.used() + 1 + d2.len()) as int) =~= rest.skip(1 + d2.len() as int));
}

/// The command TOP is read back.
proof fn lemma_top_command(msg: u32, n: u32)
    ensures
        spec_command(CommandView::Top { msg, n }.wire()) == Parsed::Done(
            CommandView::Top { msg, n },
            CommandView::Top { msg, n }.wire().len(),
        ),
{
    let c = CommandView::Top { msg, n };
    let s = c.wire();
    lemma_top_wire(msg, n);
    lemma_top_line_reads(msg, n, s);
    let rest = sp() + encode_utf8(decimal(msg as nat)) + (sp() + encode_utf8(decimal(n as nat))
        + crlf());
    lemma_begins_with(s, "TOP"@, rest);
    assert(spec_verb(s) == spec_top(s)) by {
        lemma_verb_by_keyword(s);
    }
    lemma_command_of_rule(s, "TOP"@, rest, spec_top(s), c, (s.len() - 2) as nat);
}

// ----- USER and PASS -----
/// The wire form of USER and of PASS.
proof fn lemma_text_wire(c: CommandView, keyword: Seq<char>, text: Seq<char>)
    requires
        c == CommandView::User(text) && keyword == "USER"@ || c == CommandView::Pass(text)
            && keyword == "PASS"@,
    ensures
        c.wire() == encode_utf8(keyword) + sp() + encode_utf8(text) + crlf(),
{
    assert(c.line() == keyword + " "@ + text) by {
        lemma_literals();
    }
    lemma_wire_of_operand(keyword, text);
}

/// A keyword, a space and the rest of the line are read back.
proof fn lemma_keyword_line_reads(keyword: Seq<char>, text: Seq<char>, s: Seq<u8>)
    requires
        all_of(encode_utf8(text), ByteClass::Line),
        s == encode_utf8(keyword) + sp() + encode_utf8(text) + crlf(),
    ensures
        ({
            let head = spec_keyword_space(s, keyword);
            let n = encode_utf8(keyword).len() + 1 + encode_utf8(text).len();
            &&& head == Parsed::Done((), encode_utf8(keyword).len() + 1)
            &&& spec_line_text(s.skip(head.used() as int)) == Parsed::Done(
                text,
                encode_utf8(text).len(),
            )
            &&& s.len() == n + 2
            &&& s.skip(n as int) == crlf()
        }),
{
    let k = encode_utf8(keyword);
    let t = encode_utf8(text);
    assert(s =~= k + sp() + (t + crlf()));
    lemma_keyword_space_reads(keyword, t + crlf());
    assert(t + crlf() + Seq::<u8>::empty() =~= t + crlf());
    lemma_line_text_reads(text, Seq::empty());
    lemma_split(t, crlf());
    assert(s.skip((k.len() + 1 + t.len()) as int) =~= (t + crlf()).skip(t.len() as int));
}

/// The commands USER and PASS are read back.
proof fn lemma_text_commands(c: CommandView, keyword: Seq<char>, text: Seq<char>)
    requires
        c == CommandView::User(text) && keyword == "USER"@ || c == CommandView::Pass(text)
            && keyword == "PASS"@,
        all_of(encode_utf8(text), ByteClass::Line),
    ensures
        spec_command(c.wire()) == Parsed::Done(c, c.wire().len()),
{
    let k = encode_utf8(keyword);
    let t = encode_utf8(text);
    let s = k + sp() + t + crlf();
    let n = k.len() + 1 + t.len();
    lemma_text_wire(c, keyword, text);
    lemma_keyword_line_reads(keyword, text, s);
    let rule = if c is User {
        spec_user(s)
    } else {
        spec_pass(s)
    };
    assert(rule == Parsed::Done(c, n));
    lemma_begins_with(s, keyword, sp() + t + crlf());
    assert(spec_verb(s) == rule) by {
        lemma_verb_by_keyword(s);
    }
    lemma_command_of_rule(s, keyword, sp() + t + crlf(), rule, c, n);
}

// ----- APOP -----
/// The wire form of APOP.
proof fn lemma_apop_wire(name: Seq<char>, digest: Seq<char>)
    ensures
        (CommandView::Apop { name, digest }).wire() == encode_utf8("APOP"@) + sp() + encode_utf8(
            name,
        ) + (sp() + encode_utf8(digest) + crlf()),
{
    let c = CommandView::Apop { name, digest };
    assert(c.line() == "APOP"@ + " "@ + name + " "@ + digest) by {
        lemma_literals();
    }
    lemma_wire_of_operands("APOP"@, name, digest);
}

/// The operands of APOP are read back.
proof fn lemma_apop_operands(name: Seq<char>, digest: Seq<char>)
    requires
        all_of(encode_utf8(name), ByteClass::NotSpace),
        all_of(encode_utf8(digest), ByteClass::Line),
    ensures
        ({
            let a = encode_utf8(name);
            let g = encode_utf8(digest);
            let x = a + (sp() + g + crlf());
            &&& spec_run_text(x, ByteClass::NotSpace) == Parsed::Done(name, a.len())
            &&& spec_space(x.skip(a.len() as int)) == Parsed::Done((), 1)
            &&& spec_line_text(x.skip((a.len() + 1) as int)) == Parsed::Done(digest, g.len())
            &&& x.skip((a.len() + 1 + g.len()) as int) == crlf()
            &&& x.len() == a.len() + 1 + g.len() + 2
        }),
{
    let a = encode_utf8(name);
    let g = encode_utf8(digest);
    let after_name = sp() + g + crlf();
    let x = a + after_name;
    assert(after_name[0] == 0x20);
    lemma_run_text_reads(name, after_name, ByteClass::NotSpace);
    lemma_split(a, after_name);
    assert(x.skip((a.len() + 1) as int) =~= g + crlf());
    assert(g + crlf() + Seq::<u8>::empty() =~= g + crlf());
    lemma_line_text_reads(digest, Seq::empty());
    assert(x.skip((a.len() + 1 + g.len()) as int) =~= crlf());
}

/// A line of APOP is read by its rule.
proof fn lemma_apop_line_reads(name: Seq<char>, digest: Seq<char>, s: Seq<u8>)
    requires
        all_of(encode_utf8(name), ByteClass::NotSpace),
        all_of(encode_utf8(digest), ByteClass::Line),
        s == encode_utf8("APOP"@) + sp() + encode_utf8(name) + (sp() + encode_utf8(digest)
            + crlf()),
    ensures
        spec_apop(s) == Parsed::Done(CommandView::Apop { name, digest }, (s.len() - 2) as nat),
        s.len() >= 2,
        s.skip(s.len() - 2) == crlf(),
{
    let a = encode_utf8(name);
    let g = encode_utf8(digest);
    let x = a + (sp() + g + crlf());
    lemma_apop_operands(name, digest);
    assert(s =~= encode_utf8("APOP"@) + sp() + x);
    lemma_keyword_space_reads("APOP"@, x);
    let head = spec_keyword_space(s, "APOP"@);
    assert(s.skip(head.used() as int) == x);
    assert(s.skip((head.used() + a.len()) as int) =~= x.skip(a.len() as int));
    assert(s.skip((head.used() + a.len() + 1) as int) =~= x.skip((a.len() + 1) as int));
    assert(s.skip((head.used() + a.len() + 1 + g.len()) as int) =~= x.skip(
        (a.len() + 1 + g.len()) as int,
    ));
}

/// The command APOP is read back.
proof fn lemma_apop_command(name: Seq<char>, digest: Seq<char>)
    requires
        is_canonical_command(CommandView::Apop { name, digest }),
    ensures
        spec_command(CommandView::Apop { name, digest }.wire()) == Parsed::Done(
            CommandView::Apop { name, digest },
            CommandView::Apop { name, digest }.wire().len(),
        ),
{
    let c = CommandView::Apop { name, digest };
    let s = c.wire();
    lemma_apop_wire(name, digest);
    lemma_apop_line_reads(name, digest, s);
    let rest = sp() + encode_utf8(name) + (sp() + encode_utf8(digest) + crlf());
    lemma_begins_with(s, "APOP"@, rest);
    assert(spec_verb(s) == spec_apop(s)) by {
        lemma_verb_by_keyword(s);
    }
    lemma_command_of_rule(s, "APOP"@, rest, spec_apop(s), c, (s.len() - 2) as nat);
}

// ----- AUTH -----
/// A base64 token is read back as an initial response.
proof fn lemma_initial_response_reads(response: Seq<char>)
    requires
        is_base64_token(encode_utf8(response)),
    ensures
        spec_initial_response(encode_utf8(response) + crlf()) == Parsed::Done(
            response,
            encode_utf8(response).len(),
        ),
{
    let r = encode_utf8(response);
    let x = r + crlf();
    let b = run_len(r, ByteClass::Base64);
    let p = r.skip(b as int);
    lemma_run_len_append(r, crlf(), ByteClass::Base64);
    let body = spec_take_while(x, ByteClass::Base64);
    assert(body == Parsed::Done(x.take(b as int), b));
    let y = x.skip(b as int);
    assert(y =~= p + crlf());
    assert(encode_utf8("="@) == seq![0x3Du8] && encode_utf8("=="@) == seq![0x3Du8, 0x3Du8]) by {
        lemma_literals();
    }
    let padding = spec_padding(y);
    assert(padding == Parsed::Done((), p.len())) by {
        if p =~= Seq::<u8>::empty() {
            lemma_tag_rejects(y, "=="@, false, 0);
            lemma_tag_rejects(y, "="@, false, 0);
        } else if p =~= seq![0x3Du8] {
            lemma_tag_rejects(y, "=="@, false, 1);
            lemma_tag_reads("="@, crlf(), false);
        } else {
            assert(p =~= seq![0x3Du8, 0x3Du8]);
            lemma_tag_reads("=="@, crlf(), false);
        }
    }
    assert(b + p.len() == r.len());
    assert(x.take(r.len() as int) =~= r);
    lemma_text_of_encoding(response);
    assert(spec_base64(x) == Parsed::Done(response, r.len()));
}

/// What follows the mechanism of AUTH on the wire.
pub open spec fn after_mechanism(initial_response: Option<Seq<char>>) -> Seq<u8> {
    match initial_response {
        Some(response) => sp() + encode_utf8(response) + crlf(),
        None => crlf(),
    }
}

/// The wire form of AUTH with a mechanism.
proof fn lemma_auth_wire(mechanism: Seq<char>, initial_response: Option<Seq<char>>)
    ensures
        (CommandView::Auth { mechanism, initial_response }).wire() == encode_utf8("AUTH"@) + sp()
            + encode_utf8(mechanism) + after_mechanism(initial_response),
{
    let c = CommandView::Auth { mechanism, initial_response };
    match initial_response {
        Some(response) => {
            assert(c.line() == "AUTH"@ + " "@ + mechanism + " "@ + response) by {
                lemma_literals();
            }
            lemma_wire_of_operands("AUTH"@, mechanism, response);
        },
        None => {
            assert(c.line() == "AUTH"@ + " "@ + mechanism) by {
                lemma_literals();
            }
            lemma_wire_of_operand("AUTH"@, mechanism);
        },
    }
}

/// An initial response after its space, or none, is read back.
proof fn lemma_optional_response_reads(initial_response: Option<Seq<char>>)
    requires
        initial_response matches Some(response) ==> is_base64_token(encode_utf8(response)),
    ensures
        ({
            let read = optional(spec_space_initial_response(after_mechanism(initial_response)));
            &&& read matches Parsed::Done(value, n)
            &&& value == initial_response
            &&& n + 2 == after_mechanism(initial_response).len()
            &&& after_mechanism(initial_response).skip(n as int) == crlf()
            &&& after_mechanism(initial_response).len() > 0
            &&& !ByteClass::Mechanism.spec_holds(after_mechanism(initial_response)[0])
        }),
{
    let after = after_mechanism(initial_response);
    match initial_response {
        Some(response) => {
            let r = encode_utf8(response);
            assert(after[0] == 0x20);
            assert(after.skip(1) =~= r + crlf());
            lemma_initial_response_reads(response);
            assert(after.skip(1 + r.len() as int) =~= crlf());
        },
        None => {
            assert(after.skip(0) =~= crlf());
        },
    }
}

/// A line of AUTH with a mechanism is read by its rule.
proof fn lemma_auth_line_reads(
    mechanism: Seq<char>,
    initial_response: Option<Seq<char>>,
    s: Seq<u8>,
)
    requires
        is_canonical_command(CommandView::Auth { mechanism, initial_response }),
        s == encode_utf8("AUTH"@) + sp() + encode_utf8(mechanism) + after_mechanism(
            initial_response,
        ),
    ensures
        spec_auth(s) == Parsed::Done(
            CommandView::Auth { mechanism, initial_response },
            (s.len() - 2) as nat,
        ),
        s.len() >= 2,
        s.skip(s.len() - 2) == crlf(),
{
    let m = encode_utf8(mechanism);
    let after = after_mechanism(initial_response);
    let x = m + after;
    lemma_optional_response_reads(initial_response);
    assert(s =~= encode_utf8("AUTH"@) + sp() + x);
    lemma_keyword_space_reads("AUTH"@, x);
    let head = spec_keyword_space(s, "AUTH"@);
    assert(s.skip(head.used() as int) == x);
    assert(spec_auth_type(x) == Parsed::Done(mechanism, m.len())) by {
        lemma_run_text_reads(mechanism, after, ByteClass::Mechanism);
    }
    assert(s.skip((head.used() + m.len()) as int) == after) by {
        lemma_split(m, after);
        assert(s.skip((head.used() + m.len()) as int) =~= x.skip(m.len() as int));
    }
    let read = optional(spec_space_initial_response(after));
    assert(s.skip((head.used() + m.len() + read.used()) as int) =~= after.skip(
        read.used() as int,
    ));
    assert(spec_auth_with(s) == Parsed::Done(
        CommandView::Auth { mechanism, initial_response },
        head.used() + m.len() + read.used(),
    ));
}

/// The command AUTH with a mechanism is read back.
proof fn lemma_auth_command(mechanism: Seq<char>, initial_response: Option<Seq<char>>)
    requires
        is_canonical_command(CommandView::Auth { mechanism, initial_response }),
    ensures
        spec_command(CommandView::Auth { mechanism, initial_response }.wire()) == Parsed::Done(
            CommandView::Auth { mechanism, initial_response },
            CommandView::Auth { mechanism, initial_response }.wire().len(),
        ),
{
    let c = CommandView::Auth { mechanism, initial_response };
    let s = c.wire();
    lemma_auth_wire(mechanism, initial_response);
    lemma_auth_line_reads(mechanism, initial_response, s);
    let rest = sp() + encode_utf8(mechanism) + after_mechanism(initial_response);
    lemma_begins_with(s, "AUTH"@, rest);
    assert(spec_verb(s) == spec_auth(s)) by {
        lemma_verb_by_keyword(s);
    }
    lemma_command_of_rule(s, "AUTH"@, rest, spec_auth(s), c, (s.len() - 2) as nat);
}

// ----- LANG -----
/// Subtags are read to their end, where a CR follows them.
proof fn lemma_subtags_read(bytes: Seq<u8>)
    requires
        is_subtags(bytes),
    ensures
        spec_subtags(bytes + crlf()) == Parsed::Done((), bytes.len()),
    decreases bytes.len(),
{
    let s = bytes + crlf();
    assert(encode_utf8("-"@) == seq![0x2Du8]) by {
        lemma_literals();
    }
    if bytes.len() == 0 {
        lemma_tag_rejects(s, "-"@, false, 0);
    } else {
        let run = run_len(bytes.skip(1), ByteClass::Alphanumeric);
        let tail = bytes.skip(1 + run as int);
        assert(s =~= seq![0x2Du8] + (bytes.skip(1) + crlf()));
        lemma_tag_reads("-"@, bytes.skip(1) + crlf(), false);
        assert(s.skip(1) =~= bytes.skip(1) + crlf());
        lemma_run_len_append(bytes.skip(1), crlf(), ByteClass::Alphanumeric);
        let sub = spec_take_while_m_n(s.skip(1), 1, 8, ByteClass::Alphanumeric);
        assert(sub.used() == run && sub is Done);
        assert(s.skip(1 + run as int) =~= tail + crlf());
        lemma_subtags_read(tail);
    }
}

/// A language tag is read back.
proof fn lemma_language_reads(tag: Seq<char>)
    requires
        is_language_tag(encode_utf8(tag)),
    ensures
        spec_language(encode_utf8(tag) + crlf()) == Parsed::Done(tag, encode_utf8(tag).len()),
        encode_utf8(tag).len() > 0,
        ByteClass::Alpha.spec_holds(encode_utf8(tag)[0]),
{
    let t = encode_utf8(tag);
    let x = t + crlf();
    let run = run_len(t, ByteClass::Alpha);
    lemma_run_len_append(t, crlf(), ByteClass::Alpha);
    lemma_run_end(t, ByteClass::Alpha, 0);
    let first = spec_take_while_m_n(x, 1, 8, ByteClass::Alpha);
    assert(first is Done && first.used() == run);
    assert(x.skip(run as int) =~= t.skip(run as int) + crlf());
    lemma_subtags_read(t.skip(run as int));
    assert(x.take(t.len() as int) =~= t);
    lemma_text_of_encoding(tag);
    assert(spec_language_bytes(x) == Parsed::Done(t, t.len()));
}

/// The operand of LANG is read back.
proof fn lemma_lang_operand_reads(lang_or_wild: LanguageView)
    requires
        lang_or_wild matches LanguageView::Lang(tag) ==> is_language_tag(encode_utf8(tag)),
    ensures
        ({
            let t = encode_utf8(lang_or_wild.text());
            let x = sp() + t + crlf();
            &&& spec_space_lang_or_wild(x) == Parsed::Done(lang_or_wild, 1 + t.len())
            &&& x.skip(1 + t.len() as int) == crlf()
            &&& x.len() == 1 + t.len() + 2
        }),
{
    let t = encode_utf8(lang_or_wild.text());
    let x = sp() + t + crlf();
    assert(x[0] == 0x20);
    assert(x.skip(1) =~= t + crlf());
    assert(encode_utf8("*"@) == seq![0x2Au8]) by {
        lemma_literals();
    }
    assert(spec_lang_or_wild(t + crlf()) == Parsed::Done(lang_or_wild, t.len())) by {
        match lang_or_wild {
            LanguageView::Wild => {
                lemma_tag_reads("*"@, crlf(), false);
            },
            LanguageView::Lang(tag) => {
                lemma_language_reads(tag);
                lemma_tag_rejects(t + crlf(), "*"@, false, 0);
            },
        }
    }
    assert(x.skip(1 + t.len() as int) =~= crlf());
}

/// The command LANG with an operand is read back.
proof fn lemma_lang_command(lang_or_wild: LanguageView)
    requires
        is_canonical_command(CommandView::Lang { lang_or_wild }),
    ensures
        spec_command(CommandView::Lang { lang_or_wild }.wire()) == Parsed::Done(
            CommandView::Lang { lang_or_wild },
            CommandView::Lang { lang_or_wild }.wire().len(),
        ),
{
    let c = CommandView::Lang { lang_or_wild };
    let k = encode_utf8("LANG"@);
    let t = encode_utf8(lang_or_wild.text());
    let x = sp() + t + crlf();
    let s = k + x;
    assert(c.wire() =~= s) by {
        assert(c.line() == "LANG"@ + " "@ + lang_or_wild.text()) by {
            lemma_literals();
        }
        lemma_wire_of_operand("LANG"@, lang_or_wild.text());
    }
    lemma_lang_operand_reads(lang_or_wild);
    lemma_keyword_reads("LANG"@, x);
    let n = k.len() + 1 + t.len();
    assert(s.skip(n as int) =~= x.skip(1 + t.len() as int));
    assert(spec_lang(s) == Parsed::Done(c, n));
    lemma_begins_with(s, "LANG"@, x);
    assert(spec_verb(s) == spec_lang(s)) by {
        lemma_verb_by_keyword(s);
    }
    lemma_command_of_rule(s, "LANG"@, x, spec_lang(s), c, n);
}

// ----- the laws -----
/// The input begins like none of the seventeen keywords.
pub open spec fn begins_like_no_verb(s: Seq<u8>) -> bool {
    &&& s.len() >= 3
    &&& !begins_like(s, "USER"@)
    &&& !begins_like(s, "PASS"@)
    &&& !begins_like(s, "APOP"@)
    &&& !begins_like(s, "STLS"@)
    &&& !begins_like(s, "CAPA"@)
    &&& !begins_like(s, "QUIT"@)
    &&& !begins_like(s, "STAT"@)
    &&& !begins_like(s, "LIST"@)
    &&& !begins_like(s, "RETR"@)
    &&& !begins_like(s, "DELE"@)
    &&& !begins_like(s, "NOOP"@)
    &&& !begins_like(s, "RSET"@)
    &&& !begins_like(s, "TOP"@)
    &&& !begins_like(s, "UIDL"@)
    &&& !begins_like(s, "AUTH"@)
    &&& !begins_like(s, "UTF8"@)
    &&& !begins_like(s, "LANG"@)
}

/// An input of three bytes or more that begins like no keyword is a
/// syntax error, whatever follows: more input cannot mend it.
pub proof fn law_unknown_keyword_is_refused(s: Seq<u8>)
    requires
        begins_like_no_verb(s),
    ensures
        spec_command(s) == Parsed::<CommandView>::Invalid,
{
    reveal(spec_verb);
    lemma_signatures();
    lemma_signature_rejects(s, "USER"@);
    lemma_signature_rejects(s, "PASS"@);
    lemma_signature_rejects(s, "APOP"@);
    lemma_signature_rejects(s, "STLS"@);
    lemma_signature_rejects(s, "CAPA"@);
    lemma_signature_rejects(s, "QUIT"@);
    lemma_signature_rejects(s, "STAT"@);
    lemma_signature_rejects(s, "LIST"@);
    lemma_signature_rejects(s, "RETR"@);
    lemma_signature_rejects(s, "DELE"@);
    lemma_signature_rejects(s, "NOOP"@);
    lemma_signature_rejects(s, "RSET"@);
    lemma_signature_rejects(s, "TOP"@);
    lemma_signature_rejects(s, "UIDL"@);
    lemma_signature_rejects(s, "AUTH"@);
    lemma_signature_rejects(s, "UTF8"@);
    lemma_signature_rejects(s, "LANG"@);
}

/// Serializing a command and parsing the bytes gives the command back,
/// and nothing is left over. This holds of every canonical command: of every
/// command whose operands the grammar hands out unchanged.
pub proof fn law_command_round_trip(c: CommandView)
    requires
        is_canonical_command(c),
    ensures
        spec_command(c.wire()) == Parsed::Done(c, c.wire().len()),
{
    match c {
        CommandView::User(name) => lemma_text_commands(c, "USER"@, name),
        CommandView::Pass(pass) => lemma_text_commands(c, "PASS"@, pass),
        CommandView::List { msg } => lemma_numbered_commands(c, "LIST"@, msg),
        CommandView::Retr { msg } => lemma_numbered_commands(c, "RETR"@, msg),
        CommandView::Dele { msg } => lemma_numbered_commands(c, "DELE"@, msg),
        CommandView::Uidl { msg } => lemma_numbered_commands(c, "UIDL"@, msg),
        CommandView::Top { msg, n } => lemma_top_command(msg, n),
        CommandView::Apop { name, digest } => lemma_apop_command(name, digest),
        CommandView::Auth { mechanism, initial_response } => lemma_auth_command(
            mechanism,
            initial_response,
        ),
        CommandView::Lang { lang_or_wild } => lemma_lang_command(lang_or_wild),
        _ => lemma_plain_commands(c),
    }
}

} // verus!
