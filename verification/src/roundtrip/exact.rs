//! Only canonical commands are read back: what the parser hands out is
//! canonical, so a command that is read back as it was written is canonical.

use crate::parse::command::{
    spec_apop, spec_auth, spec_auth_type, spec_base64, spec_capa, spec_dele,
    spec_initial_response, spec_keyword_space, spec_lang, spec_list, spec_noop, spec_padding,
    spec_pass, spec_quit, spec_retr, spec_rset, spec_stat, spec_stls, spec_top, spec_uidl,
    spec_user, spec_utf8,
};
use crate::parse::token::{
    lemma_run_end, lemma_run_end_is, or_else, run_len, same_byte, spec_language,
    spec_language_bytes, spec_line_text, spec_run_text, spec_space, spec_subtags, spec_tag,
    spec_take_while, spec_take_while_m_n, spec_word, then, ByteClass, Parsed,
};
use crate::parse::{spec_command, spec_verb};
use crate::roundtrip::command::{
    is_base64_token, is_canonical_command, is_language_tag, is_subtags, law_command_round_trip,
};
use crate::roundtrip::{all_of, lemma_literal};
use crate::text::spec_text;
use crate::types::command::CommandView;
use vstd::prelude::*;
use vstd::string::*;
use vstd::utf8::*;

verus! {

// ----- what the tokens hand out -----
/// Bytes that are read as a text are the encoding of that text.
pub(crate) proof fn lemma_text_encodes(bytes: Seq<u8>)
    ensures
        spec_text(bytes) matches Some(text) ==> encode_utf8(text) == bytes,
{
    if valid_utf8(bytes) {
        decode_utf8_encode_utf8(bytes);
    }
}

/// The text of a run is a text of bytes of the class.
pub(crate) proof fn lemma_run_text_is_of_class(s: Seq<u8>, class: ByteClass)
    ensures
        spec_run_text(s, class) matches Parsed::Done(text, _) ==> all_of(encode_utf8(text), class),
        spec_word(s, class) matches Parsed::Done(text, _) ==> all_of(encode_utf8(text), class)
            && text.len() > 0,
{
    let n = run_len(s, class);
    lemma_run_end(s, class, 0);
    lemma_text_encodes(s.take(n as int));
    if let Parsed::Done(text, _) = spec_run_text(s, class) {
        assert forall|i: int| 0 <= i < encode_utf8(text).len() implies class.spec_holds(
            #[trigger] encode_utf8(text)[i],
        ) by {
            assert(s.take(n as int)[i] == s[i]);
        }
    }
    if let Parsed::Done(text, _) = spec_word(s, class) {
        if text.len() == 0 {
            assert(encode_utf8(text) =~= Seq::<u8>::empty());
        }
    }
}

/// The text of the rest of a line holds no CR and no LF.
pub(crate) proof fn lemma_line_text_is_a_line(s: Seq<u8>)
    ensures
        spec_line_text(s) matches Parsed::Done(text, _) ==> all_of(
            encode_utf8(text),
            ByteClass::Line,
        ),
{
    let n = run_len(s, ByteClass::Line);
    lemma_run_end(s, ByteClass::Line, 0);
    lemma_text_encodes(s.take(n as int));
    if let Parsed::Done(text, _) = spec_line_text(s) {
        assert forall|i: int| 0 <= i < encode_utf8(text).len() implies ByteClass::Line.spec_holds(
            #[trigger] encode_utf8(text)[i],
        ) by {
            assert(s.take(n as int)[i] == s[i]);
        }
    }
}

/// An input that matches a tag byte for byte begins with the bytes of the tag.
proof fn lemma_tag_is_there(s: Seq<u8>, tag: Seq<char>)
    ensures
        spec_tag(s, tag) is Done ==> encode_utf8(tag).len() <= s.len() && s.take(
            encode_utf8(tag).len() as int,
        ) == encode_utf8(tag),
{
    let bytes = encode_utf8(tag);
    if spec_tag(s, tag) is Done {
        assert forall|i: int| 0 <= i < bytes.len() implies s.take(bytes.len() as int)[i]
            == bytes[i] by {
            assert(same_byte(s[i], bytes[i], false));
        }
        assert(s.take(bytes.len() as int) =~= bytes);
    }
}

// ----- AUTH -----
/// The bytes of the two paddings.
proof fn lemma_paddings()
    ensures
        encode_utf8("="@) == seq![0x3Du8],
        encode_utf8("=="@) == seq![0x3Du8, 0x3Du8],
{
    reveal_strlit("=");
    reveal_strlit("==");
    lemma_literal("="@);
    lemma_literal("=="@);
    assert(encode_utf8("="@) =~= seq![0x3Du8]);
    assert(encode_utf8("=="@) =~= seq![0x3Du8, 0x3Du8]);
}

/// The padding that was read is `==`, `=` or nothing.
proof fn lemma_padding_is(y: Seq<u8>)
    ensures
        spec_padding(y) matches Parsed::Done(_, p) ==> {
            &&& p <= y.len()
            &&& p <= 2
            &&& p == 0 ==> y.take(0) == Seq::<u8>::empty()
            &&& p == 1 ==> y.take(1) == seq![0x3Du8]
            &&& p == 2 ==> y.take(2) == seq![0x3Du8, 0x3Du8]
        },
{
    lemma_paddings();
    lemma_tag_is_there(y, "=="@);
    lemma_tag_is_there(y, "="@);
    assert(y.take(0) =~= Seq::<u8>::empty());
}

/// A run of base64 bytes and a padding make a base64 token.
proof fn lemma_token_of(s: Seq<u8>, b: nat, p: nat)
    requires
        b == run_len(s, ByteClass::Base64),
        b + p <= s.len(),
        p <= 2,
        p == 1 ==> s.skip(b as int).take(1) == seq![0x3Du8],
        p == 2 ==> s.skip(b as int).take(2) == seq![0x3Du8, 0x3Du8],
    ensures
        is_base64_token(s.take((b + p) as int)),
{
    let token = s.take((b + p) as int);
    let y = s.skip(b as int);
    lemma_run_end(s, ByteClass::Base64, 0);
    assert forall|i: int| 0 <= i < b implies ByteClass::Base64.spec_holds(#[trigger] token[i]) by {
        assert(token[i] == s[i]);
    }
    if p > 0 {
        assert(y.take(p as int)[0] == y[0]);
        assert(token[b as int] == y[0]);
        assert(token[b as int] == 0x3D);
    }
    lemma_run_end_is(token, ByteClass::Base64, 0, b);
    assert(token.skip(b as int) =~= y.take(p as int));
    if p == 0 {
        assert(token.skip(b as int) =~= Seq::<u8>::empty());
    }
}

/// A base64 token that was read is a base64 token.
proof fn lemma_base64_is_token(s: Seq<u8>)
    ensures
        spec_base64(s) matches Parsed::Done(text, _) ==> is_base64_token(encode_utf8(text)),
{
    let body = spec_take_while(s, ByteClass::Base64);
    if let Parsed::Done(_, b) = body {
        let y = s.skip(b as int);
        lemma_run_end(s, ByteClass::Base64, 0);
        assert(y.len() == s.len() - b);
        lemma_padding_is(y);
        if let Parsed::Done(_, p) = spec_padding(y) {
            lemma_token_of(s, b, p);
            lemma_text_encodes(s.take((b + p) as int));
        }
    }
}

/// An initial response that was read is a base64 token.
proof fn lemma_initial_response_is_token(s: Seq<u8>)
    ensures
        spec_initial_response(s) matches Parsed::Done(text, _) ==> is_base64_token(
            encode_utf8(text),
        ),
{
    lemma_base64_is_token(s);
    if spec_base64(s) is Invalid {
        reveal_strlit("=");
        lemma_literal("="@);
        let bytes = encode_utf8("="@);
        assert(bytes =~= seq![0x3Du8]);
        lemma_run_end_is(bytes, ByteClass::Base64, 0, 0);
        assert(bytes.skip(0) =~= bytes);
    }
}

/// What AUTH hands out is canonical.
proof fn lemma_auth_is_canonical(s: Seq<u8>)
    ensures
        spec_auth(s) matches Parsed::Done(c, _) ==> is_canonical_command(c),
{
    let head = spec_keyword_space(s, "AUTH"@);
    let at = s.skip(head.used() as int);
    lemma_run_text_is_of_class(at, ByteClass::Mechanism);
    let mechanism = spec_auth_type(at);
    let after = s.skip((head.used() + mechanism.used()) as int);
    lemma_initial_response_is_token(after.skip(1));
}

// ----- LANG -----
/// The subtags that were read are subtags.
proof fn lemma_subtags_are(s: Seq<u8>)
    ensures
        spec_subtags(s) matches Parsed::Done(_, n) ==> n <= s.len() && is_subtags(
            s.take(n as int),
        ),
    decreases s.len(),
{
    if let Parsed::Done(_, n) = spec_subtags(s) {
        let dash = spec_tag(s, "-"@);
        let sub = spec_take_while_m_n(s.skip(dash.used() as int), 1, 8, ByteClass::Alphanumeric);
        assert(encode_utf8("-"@) == seq![0x2Du8]) by {
            reveal_strlit("-");
            lemma_literal("-"@);
            assert(encode_utf8("-"@) =~= seq![0x2Du8]);
        }
        if let Parsed::Done(_, first) = then(dash, sub) {
            if 0 < first <= s.len() {
                lemma_tag_is_there(s, "-"@);
                assert(s.take(1)[0] == s[0]);
                let x = s.skip(1);
                let run = (first - 1) as nat;
                lemma_run_end(x, ByteClass::Alphanumeric, 0);
                let rest = s.skip(first as int);
                lemma_subtags_are(rest);
                let m = spec_subtags(rest).used();
                assert(n == first + m);
                let token = s.take(n as int);
                // The first subtag of the token is the first subtag of the input.
                assert(token[0] == 0x2D);
                let tail = token.skip(1);
                assert forall|i: int| 0 <= i < run implies ByteClass::Alphanumeric.spec_holds(
                    #[trigger] tail[i],
                ) by {
                    assert(tail[i] == x[i]);
                    assert(x.take(run as int)[i] == x[i]);
                }
                if run < tail.len() {
                    // What follows is the dash of the next subtag.
                    assert(m > 0);
                    assert(is_subtags(rest.take(m as int)));
                    assert(rest.take(m as int)[0] == 0x2D);
                    assert(tail[run as int] == rest[0]);
                }
                lemma_run_end_is(tail, ByteClass::Alphanumeric, 0, run);
                assert(token.skip(1 + run as int) =~= rest.take(m as int));
            } else {
                assert(s.take(0) =~= Seq::<u8>::empty());
            }
        } else {
            assert(s.take(0) =~= Seq::<u8>::empty());
        }
    }
}

/// A language tag that was read is a language tag.
proof fn lemma_language_is_tag(s: Seq<u8>)
    ensures
        spec_language(s) matches Parsed::Done(tag, _) ==> is_language_tag(encode_utf8(tag)),
{
    if let Parsed::Done(bytes, n) = spec_language_bytes(s) {
        let first = spec_take_while_m_n(s, 1, 8, ByteClass::Alpha);
        let a = first.used();
        lemma_run_end(s, ByteClass::Alpha, 0);
        let rest = s.skip(a as int);
        lemma_subtags_are(rest);
        let m = spec_subtags(rest).used();
        lemma_text_encodes(bytes);
        assert forall|i: int| 0 <= i < a implies ByteClass::Alpha.spec_holds(
            #[trigger] bytes[i],
        ) by {
            assert(bytes[i] == s[i]);
        }
        if a < bytes.len() {
            assert(is_subtags(rest.take(m as int)));
            assert(rest.take(m as int)[0] == 0x2D);
            assert(bytes[a as int] == rest[0]);
        }
        lemma_run_end_is(bytes, ByteClass::Alpha, 0, a);
        assert(bytes.skip(a as int) =~= rest.take(m as int));
    }
}

/// What LANG hands out is canonical.
proof fn lemma_lang_is_canonical(s: Seq<u8>)
    ensures
        spec_lang(s) matches Parsed::Done(c, _) ==> is_canonical_command(c),
{
    let head = crate::parse::token::spec_tag_no_case(s, "LANG"@);
    let at = s.skip(head.used() as int);
    lemma_language_is_tag(at.skip(1));
}

// ----- USER, PASS, APOP -----
/// What USER, PASS and APOP hand out is canonical.
proof fn lemma_text_commands_are_canonical(s: Seq<u8>)
    ensures
        spec_user(s) matches Parsed::Done(c, _) ==> is_canonical_command(c),
        spec_pass(s) matches Parsed::Done(c, _) ==> is_canonical_command(c),
        spec_apop(s) matches Parsed::Done(c, _) ==> is_canonical_command(c),
{
    let user = spec_keyword_space(s, "USER"@);
    lemma_line_text_is_a_line(s.skip(user.used() as int));
    let pass = spec_keyword_space(s, "PASS"@);
    lemma_line_text_is_a_line(s.skip(pass.used() as int));
    let apop = spec_keyword_space(s, "APOP"@);
    let name = spec_run_text(s.skip(apop.used() as int), ByteClass::NotSpace);
    lemma_run_text_is_of_class(s.skip(apop.used() as int), ByteClass::NotSpace);
    let gap = spec_space(s.skip((apop.used() + name.used()) as int));
    lemma_line_text_is_a_line(s.skip((apop.used() + name.used() + gap.used()) as int));
}

// ----- the laws -----
/// The rule hands out nothing but canonical commands.
#[verifier::opaque]
pub open spec fn hands_out_canonical(p: Parsed<CommandView>) -> bool {
    p matches Parsed::Done(c, _) ==> is_canonical_command(c)
}

/// The rules of USER, PASS and APOP hand out canonical commands.
proof fn lemma_text_rules_hand_out_canonical(s: Seq<u8>)
    ensures
        hands_out_canonical(spec_user(s)),
        hands_out_canonical(spec_pass(s)),
        hands_out_canonical(spec_apop(s)),
{
    reveal(hands_out_canonical);
    lemma_text_commands_are_canonical(s);
}

/// The rules of the verbs without text operands hand out canonical
/// commands: every such command is canonical.
proof fn lemma_plain_rules_hand_out_canonical(s: Seq<u8>)
    ensures
        hands_out_canonical(spec_stls(s)),
        hands_out_canonical(spec_capa(s)),
        hands_out_canonical(spec_quit(s)),
        hands_out_canonical(spec_stat(s)),
        hands_out_canonical(spec_noop(s)),
        hands_out_canonical(spec_rset(s)),
        hands_out_canonical(spec_utf8(s)),
{
    reveal(hands_out_canonical);
}

proof fn lemma_numbered_rules_hand_out_canonical(s: Seq<u8>)
    ensures
        hands_out_canonical(spec_list(s)),
        hands_out_canonical(spec_retr(s)),
        hands_out_canonical(spec_dele(s)),
        hands_out_canonical(spec_top(s)),
        hands_out_canonical(spec_uidl(s)),
{
    reveal(hands_out_canonical);
}

/// The rules of AUTH and LANG hand out canonical commands.
proof fn lemma_token_rules_hand_out_canonical(s: Seq<u8>)
    ensures
        hands_out_canonical(spec_auth(s)),
        hands_out_canonical(spec_lang(s)),
{
    reveal(hands_out_canonical);
    lemma_auth_is_canonical(s);
    lemma_lang_is_canonical(s);
}

/// Of seventeen alternatives that hand out canonical commands, the first
/// that matches does so too.
proof fn lemma_first_hands_out_canonical(
    user: Parsed<CommandView>,
    pass: Parsed<CommandView>,
    apop: Parsed<CommandView>,
    stls: Parsed<CommandView>,
    capa: Parsed<CommandView>,
    quit: Parsed<CommandView>,
    stat: Parsed<CommandView>,
    list: Parsed<CommandView>,
    retr: Parsed<CommandView>,
    dele: Parsed<CommandView>,
    noop: Parsed<CommandView>,
    rset: Parsed<CommandView>,
    top: Parsed<CommandView>,
    uidl: Parsed<CommandView>,
    auth: Parsed<CommandView>,
    utf8: Parsed<CommandView>,
    lang: Parsed<CommandView>,
)
    requires
        hands_out_canonical(user),
        hands_out_canonical(pass),
        hands_out_canonical(apop),
        hands_out_canonical(stls),
        hands_out_canonical(capa),
        hands_out_canonical(quit),
        hands_out_canonical(stat),
        hands_out_canonical(list),
        hands_out_canonical(retr),
        hands_out_canonical(dele),
        hands_out_canonical(noop),
        hands_out_canonical(rset),
        hands_out_canonical(top),
        hands_out_canonical(uidl),
        hands_out_canonical(auth),
        hands_out_canonical(utf8),
        hands_out_canonical(lang),
    ensures
        hands_out_canonical(
            or_else(
                user,
                or_else(
                    pass,
                    or_else(
                        apop,
                        or_else(
                            stls,
                            or_else(
                                capa,
                                or_else(
                                    quit,
                                    or_else(
                                        stat,
                                        or_else(
                                            list,
                                            or_else(
                                                retr,
                                                or_else(
                                                    dele,
                                                    or_else(
                                                        noop,
                                                        or_else(
                                                            rset,
                                                            or_else(
                                                                top,
                                                                or_else(
                                                                    uidl,
                                                                    or_else(
                                                                        auth,
                                                                        or_else(utf8, lang),
                                                                    ),
                                                                ),
                                                            ),
                                                        ),
                                                    ),
                                                ),
                                            ),
                                        ),
                                    ),
                                ),
                            ),
                        ),
                    ),
                ),
            ),
        ),
{
    reveal(hands_out_canonical);
}

/// The verbs hand out canonical commands.
proof fn lemma_verb_hands_out_canonical(s: Seq<u8>)
    ensures
        hands_out_canonical(spec_verb(s)),
{
    lemma_text_rules_hand_out_canonical(s);
    lemma_plain_rules_hand_out_canonical(s);
    lemma_numbered_rules_hand_out_canonical(s);
    lemma_token_rules_hand_out_canonical(s);
    lemma_first_hands_out_canonical(
        spec_user(s),
        spec_pass(s),
        spec_apop(s),
        spec_stls(s),
        spec_capa(s),
        spec_quit(s),
        spec_stat(s),
        spec_list(s),
        spec_retr(s),
        spec_dele(s),
        spec_noop(s),
        spec_rset(s),
        spec_top(s),
        spec_uidl(s),
        spec_auth(s),
        spec_utf8(s),
        spec_lang(s),
    );
    reveal(spec_verb);
}

/// Every command that the parser hands out is canonical.
pub proof fn law_parsed_command_is_canonical(s: Seq<u8>)
    ensures
        spec_command(s) matches Parsed::Done(c, _) ==> is_canonical_command(c),
{
    lemma_verb_hands_out_canonical(s);
    reveal(hands_out_canonical);
}

/// A command is read back as it was written if, and only if, it is
/// canonical.
pub proof fn law_command_round_trip_is_exact(c: CommandView)
    ensures
        spec_command(c.wire()) == Parsed::Done(c, c.wire().len()) <==> is_canonical_command(c),
{
    if is_canonical_command(c) {
        law_command_round_trip(c);
    }
    law_parsed_command_is_canonical(c.wire());
}

} // verus!
