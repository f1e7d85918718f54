//! Commands: what is reported on a part of the input is final.

use crate::parse::command::{
    spec_apop, spec_auth, spec_auth_type, spec_auth_with, spec_base64, spec_capa, spec_dele,
    spec_initial_response, spec_keyword_number, spec_keyword_optional_number, spec_keyword_space,
    spec_lang, spec_lang_or_wild, spec_list, spec_noop, spec_padding, spec_pass, spec_quit,
    spec_retr, spec_rset, spec_space_initial_response, spec_space_lang_or_wild,
    spec_space_number, spec_stat, spec_stls, spec_top, spec_uidl, spec_user, spec_utf8,
};
use crate::parse::token::{
    spec_language, spec_language_bytes, spec_run_text, spec_space, spec_subtags, spec_tag,
    spec_tag_no_case, spec_take_while, spec_take_while_m_n, ByteClass, Parsed,
};
use crate::parse::{spec_command, spec_verb};
use crate::streaming::{
    lemma_byte_steady, lemma_line_ending_steady, lemma_not_line_ending_steady,
    lemma_number_steady, lemma_part_skip, lemma_tag_steady, lemma_take_while_m_n_steady,
    lemma_take_while_steady, lemma_text_runs_steady, settled, steady,
};
use crate::types::command::CommandView;
use vstd::prelude::*;
use vstd::string::*;

verus! {

pub(crate) proof fn lemma_keyword_space_steady(s: Seq<u8>, k: int, keyword: Seq<char>)
    requires
        0 <= k <= s.len(),
    ensures
        steady(spec_keyword_space(s.take(k), keyword), spec_keyword_space(s, keyword), s, k),
{
    let part = s.take(k);
    lemma_tag_steady(s, k, keyword, true);
    let read1 = spec_tag_no_case(part, keyword);
    if read1 is Done {
        let n1 = read1.used() as int;
        lemma_part_skip(s, k, n1);
        lemma_byte_steady(s.skip(n1), k - n1, 0x20);
    }
    let whole1 = spec_tag_no_case(s, keyword);
    if whole1 is Done {
        let m1 = whole1.used() as int;
        assert(s.skip(m1).len() == s.len() - m1);
        lemma_byte_steady(s.skip(m1), 0, 0x20);
    }
}

pub(crate) proof fn lemma_keyword_number_steady(s: Seq<u8>, k: int, keyword: Seq<char>)
    requires
        0 <= k <= s.len(),
    ensures
        steady(spec_keyword_number(s.take(k), keyword), spec_keyword_number(s, keyword), s, k),
{
    let part = s.take(k);
    lemma_keyword_space_steady(s, k, keyword);
    let read1 = spec_keyword_space(part, keyword);
    if read1 is Done {
        let n1 = read1.used() as int;
        lemma_part_skip(s, k, n1);
        lemma_number_steady(s.skip(n1), k - n1);
    }
    let whole1 = spec_keyword_space(s, keyword);
    if whole1 is Done {
        let m1 = whole1.used() as int;
        assert(s.skip(m1).len() == s.len() - m1);
        lemma_number_steady(s.skip(m1), 0);
    }
}

pub(crate) proof fn lemma_space_number_steady(s: Seq<u8>, k: int)
    requires
        0 <= k <= s.len(),
    ensures
        steady(spec_space_number(s.take(k)), spec_space_number(s), s, k),
{
    let part = s.take(k);
    lemma_byte_steady(s, k, 0x20);
    let read1 = spec_space(part);
    if read1 is Done {
        let n1 = read1.used() as int;
        lemma_part_skip(s, k, n1);
        lemma_number_steady(s.skip(n1), k - n1);
    }
    let whole1 = spec_space(s);
    if whole1 is Done {
        let m1 = whole1.used() as int;
        assert(s.skip(m1).len() == s.len() - m1);
        lemma_number_steady(s.skip(m1), 0);
    }
}

pub(crate) proof fn lemma_keyword_optional_number_steady(s: Seq<u8>, k: int, keyword: Seq<char>)
    requires
        0 <= k <= s.len(),
    ensures
        steady(
            spec_keyword_optional_number(s.take(k), keyword),
            spec_keyword_optional_number(s, keyword),
            s,
            k,
        ),
{
    let part = s.take(k);
    lemma_tag_steady(s, k, keyword, true);
    let read1 = spec_tag_no_case(part, keyword);
    if read1 is Done {
        let n1 = read1.used() as int;
        lemma_part_skip(s, k, n1);
        lemma_space_number_steady(s.skip(n1), k - n1);
    }
    let whole1 = spec_tag_no_case(s, keyword);
    if whole1 is Done {
        let m1 = whole1.used() as int;
        assert(s.skip(m1).len() == s.len() - m1);
        lemma_space_number_steady(s.skip(m1), 0);
    }
}

pub(crate) proof fn lemma_user_steady(s: Seq<u8>, k: int)
    requires
        0 <= k <= s.len(),
    ensures
        steady(spec_user(s.take(k)), spec_user(s), s, k),
{
    let part = s.take(k);
    lemma_keyword_space_steady(s, k, "USER"@);
    let read1 = spec_keyword_space(part, "USER"@);
    if read1 is Done {
        let n1 = read1.used() as int;
        lemma_part_skip(s, k, n1);
        lemma_not_line_ending_steady(s.skip(n1), k - n1);
    }
    let whole1 = spec_keyword_space(s, "USER"@);
    if whole1 is Done {
        let m1 = whole1.used() as int;
        assert(s.skip(m1).len() == s.len() - m1);
        lemma_not_line_ending_steady(s.skip(m1), 0);
    }
}

pub(crate) proof fn lemma_pass_steady(s: Seq<u8>, k: int)
    requires
        0 <= k <= s.len(),
    ensures
        steady(spec_pass(s.take(k)), spec_pass(s), s, k),
{
    let part = s.take(k);
    lemma_keyword_space_steady(s, k, "PASS"@);
    let read1 = spec_keyword_space(part, "PASS"@);
    if read1 is Done {
        let n1 = read1.used() as int;
        lemma_part_skip(s, k, n1);
        lemma_not_line_ending_steady(s.skip(n1), k - n1);
    }
    let whole1 = spec_keyword_space(s, "PASS"@);
    if whole1 is Done {
        let m1 = whole1.used() as int;
        assert(s.skip(m1).len() == s.len() - m1);
        lemma_not_line_ending_steady(s.skip(m1), 0);
    }
}

pub(crate) proof fn lemma_list_steady(s: Seq<u8>, k: int)
    requires
        0 <= k <= s.len(),
    ensures
        steady(spec_list(s.take(k)), spec_list(s), s, k),
{
    lemma_keyword_optional_number_steady(s, k, "LIST"@);
}

pub(crate) proof fn lemma_uidl_steady(s: Seq<u8>, k: int)
    requires
        0 <= k <= s.len(),
    ensures
        steady(spec_uidl(s.take(k)), spec_uidl(s), s, k),
{
    lemma_keyword_optional_number_steady(s, k, "UIDL"@);
}

pub(crate) proof fn lemma_retr_steady(s: Seq<u8>, k: int)
    requires
        0 <= k <= s.len(),
    ensures
        steady(spec_retr(s.take(k)), spec_retr(s), s, k),
{
    lemma_keyword_number_steady(s, k, "RETR"@);
}

pub(crate) proof fn lemma_dele_steady(s: Seq<u8>, k: int)
    requires
        0 <= k <= s.len(),
    ensures
        steady(spec_dele(s.take(k)), spec_dele(s), s, k),
{
    lemma_keyword_number_steady(s, k, "DELE"@);
}

pub(crate) proof fn lemma_top_steady(s: Seq<u8>, k: int)
    requires
        0 <= k <= s.len(),
    ensures
        steady(spec_top(s.take(k)), spec_top(s), s, k),
{
    let part = s.take(k);
    lemma_keyword_number_steady(s, k, "TOP"@);
    let read1 = spec_keyword_number(part, "TOP"@);
    if read1 is Done {
        let n1 = read1.used() as int;
        lemma_part_skip(s, k, n1);
        lemma_space_number_steady(s.skip(n1), k - n1);
    }
    let whole1 = spec_keyword_number(s, "TOP"@);
    if whole1 is Done {
        let m1 = whole1.used() as int;
        assert(s.skip(m1).len() == s.len() - m1);
        lemma_space_number_steady(s.skip(m1), 0);
    }
}

pub(crate) proof fn lemma_apop_steady(s: Seq<u8>, k: int)
    requires
        0 <= k <= s.len(),
    ensures
        steady(spec_apop(s.take(k)), spec_apop(s), s, k),
{
    let part = s.take(k);
    lemma_keyword_space_steady(s, k, "APOP"@);
    let read1 = spec_keyword_space(part, "APOP"@);
    if read1 is Done {
        let n1 = read1.used() as int;
        lemma_part_skip(s, k, n1);
        lemma_text_runs_steady(s.skip(n1), k - n1, ByteClass::NotSpace);
        let read2 = spec_run_text(part.skip(n1), ByteClass::NotSpace);
        if read2 is Done {
            let n2 = n1 + read2.used();
            lemma_part_skip(s, k, n2);
            lemma_byte_steady(s.skip(n2), k - n2, 0x20);
            let read3 = spec_space(part.skip(n2));
            if read3 is Done {
                let n3 = n2 + read3.used();
                lemma_part_skip(s, k, n3);
                lemma_not_line_ending_steady(s.skip(n3), k - n3);
            }
        }
    }
    let whole1 = spec_keyword_space(s, "APOP"@);
    if whole1 is Done {
        let m1 = whole1.used() as int;
        assert(s.skip(m1).len() == s.len() - m1);
        lemma_text_runs_steady(s.skip(m1), 0, ByteClass::NotSpace);
        let whole2 = spec_run_text(s.skip(m1), ByteClass::NotSpace);
        if whole2 is Done {
            let m2 = m1 + whole2.used();
            assert(s.skip(m2).len() == s.len() - m2);
            lemma_byte_steady(s.skip(m2), 0, 0x20);
            let whole3 = spec_space(s.skip(m2));
            if whole3 is Done {
                let m3 = m2 + whole3.used();
                assert(s.skip(m3).len() == s.len() - m3);
                lemma_not_line_ending_steady(s.skip(m3), 0);
            }
        }
    }
}

/// The verbs without an operand.
pub(crate) proof fn lemma_bare_verbs_steady(s: Seq<u8>, k: int)
    requires
        0 <= k <= s.len(),
    ensures
        steady(spec_stat(s.take(k)), spec_stat(s), s, k),
        steady(spec_noop(s.take(k)), spec_noop(s), s, k),
        steady(spec_rset(s.take(k)), spec_rset(s), s, k),
        steady(spec_quit(s.take(k)), spec_quit(s), s, k),
        steady(spec_capa(s.take(k)), spec_capa(s), s, k),
        steady(spec_stls(s.take(k)), spec_stls(s), s, k),
        steady(spec_utf8(s.take(k)), spec_utf8(s), s, k),
{
    lemma_tag_steady(s, k, "STAT"@, true);
    lemma_tag_steady(s, k, "NOOP"@, true);
    lemma_tag_steady(s, k, "RSET"@, true);
    lemma_tag_steady(s, k, "QUIT"@, true);
    lemma_tag_steady(s, k, "CAPA"@, true);
    lemma_tag_steady(s, k, "STLS"@, true);
    lemma_tag_steady(s, k, "UTF8"@, true);
}

pub(crate) proof fn lemma_padding_steady(s: Seq<u8>, k: int)
    requires
        0 <= k <= s.len(),
    ensures
        steady(spec_padding(s.take(k)), spec_padding(s), s, k),
{
    lemma_tag_steady(s, k, "=="@, false);
    lemma_tag_steady(s, k, "="@, false);
}

pub(crate) proof fn lemma_base64_steady(s: Seq<u8>, k: int)
    requires
        0 <= k <= s.len(),
    ensures
        steady(spec_base64(s.take(k)), spec_base64(s), s, k),
{
    let part = s.take(k);
    lemma_take_while_steady(s, k, ByteClass::Base64);
    let body = spec_take_while(part, ByteClass::Base64);
    if body is Done {
        let n = body.used() as int;
        lemma_part_skip(s, k, n);
        lemma_padding_steady(s.skip(n), k - n);
        let padding = spec_padding(part.skip(n));
        if padding is Done {
            let m = n + padding.used();
            assert(part.take(m) =~= s.take(m));
        }
    }
    lemma_take_while_steady(s, 0, ByteClass::Base64);
    let whole = spec_take_while(s, ByteClass::Base64);
    if whole is Done {
        let n = whole.used() as int;
        assert(s.skip(n).len() == s.len() - n);
        lemma_padding_steady(s.skip(n), 0);
    }
}

pub(crate) proof fn lemma_initial_response_steady(s: Seq<u8>, k: int)
    requires
        0 <= k <= s.len(),
    ensures
        steady(spec_initial_response(s.take(k)), spec_initial_response(s), s, k),
{
    lemma_base64_steady(s, k);
    lemma_tag_steady(s, k, "="@, false);
}

pub(crate) proof fn lemma_space_initial_response_steady(s: Seq<u8>, k: int)
    requires
        0 <= k <= s.len(),
    ensures
        steady(spec_space_initial_response(s.take(k)), spec_space_initial_response(s), s, k),
{
    let part = s.take(k);
    lemma_byte_steady(s, k, 0x20);
    let read1 = spec_space(part);
    if read1 is Done {
        let n1 = read1.used() as int;
        lemma_part_skip(s, k, n1);
        lemma_initial_response_steady(s.skip(n1), k - n1);
    }
    let whole1 = spec_space(s);
    if whole1 is Done {
        let m1 = whole1.used() as int;
        assert(s.skip(m1).len() == s.len() - m1);
        lemma_initial_response_steady(s.skip(m1), 0);
    }
}

pub(crate) proof fn lemma_auth_with_steady(s: Seq<u8>, k: int)
    requires
        0 <= k <= s.len(),
    ensures
        steady(spec_auth_with(s.take(k)), spec_auth_with(s), s, k),
{
    let part = s.take(k);
    lemma_keyword_space_steady(s, k, "AUTH"@);
    let read1 = spec_keyword_space(part, "AUTH"@);
    if read1 is Done {
        let n1 = read1.used() as int;
        lemma_part_skip(s, k, n1);
        lemma_text_runs_steady(s.skip(n1), k - n1, ByteClass::Mechanism);
        let read2 = spec_auth_type(part.skip(n1));
        if read2 is Done {
            let n2 = n1 + read2.used();
            lemma_part_skip(s, k, n2);
            lemma_space_initial_response_steady(s.skip(n2), k - n2);
        }
    }
    let whole1 = spec_keyword_space(s, "AUTH"@);
    if whole1 is Done {
        let m1 = whole1.used() as int;
        assert(s.skip(m1).len() == s.len() - m1);
        lemma_text_runs_steady(s.skip(m1), 0, ByteClass::Mechanism);
        let whole2 = spec_auth_type(s.skip(m1));
        if whole2 is Done {
            let m2 = m1 + whole2.used();
            assert(s.skip(m2).len() == s.len() - m2);
            lemma_space_initial_response_steady(s.skip(m2), 0);
        }
    }
}

pub(crate) proof fn lemma_auth_steady(s: Seq<u8>, k: int)
    requires
        0 <= k <= s.len(),
    ensures
        steady(spec_auth(s.take(k)), spec_auth(s), s, k),
{
    lemma_auth_with_steady(s, k);
    lemma_tag_steady(s, k, "AUTH"@, true);
}

pub(crate) proof fn lemma_subtags_steady(s: Seq<u8>, k: int)
    requires
        0 <= k <= s.len(),
    ensures
        steady(spec_subtags(s.take(k)), spec_subtags(s), s, k),
    decreases s.len(),
{
    let part = s.take(k);
    lemma_tag_steady(s, k, "-"@, false);
    let dash = spec_tag(part, "-"@);
    if dash is Done {
        let d = dash.used() as int;
        lemma_part_skip(s, k, d);
        lemma_take_while_m_n_steady(s.skip(d), k - d, 1, 8, ByteClass::Alphanumeric);
        let sub = spec_take_while_m_n(part.skip(d), 1, 8, ByteClass::Alphanumeric);
        if sub is Done {
            let n = d + sub.used();
            if 0 < n {
                lemma_part_skip(s, k, n);
                lemma_subtags_steady(s.skip(n), k - n);
            }
        }
    }
    lemma_tag_steady(s, 0, "-"@, false);
    let whole_dash = spec_tag(s, "-"@);
    if whole_dash is Done {
        let d = whole_dash.used() as int;
        assert(s.skip(d).len() == s.len() - d);
        lemma_take_while_m_n_steady(s.skip(d), 0, 1, 8, ByteClass::Alphanumeric);
        let sub = spec_take_while_m_n(s.skip(d), 1, 8, ByteClass::Alphanumeric);
        if sub is Done {
            let n = d + sub.used();
            if 0 < n <= s.len() {
                assert(s.skip(n).len() == s.len() - n);
                lemma_subtags_steady(s.skip(n), 0);
            }
        }
    }
}

pub(crate) proof fn lemma_language_steady(s: Seq<u8>, k: int)
    requires
        0 <= k <= s.len(),
    ensures
        steady(spec_language_bytes(s.take(k)), spec_language_bytes(s), s, k),
        steady(spec_language(s.take(k)), spec_language(s), s, k),
{
    let part = s.take(k);
    lemma_take_while_m_n_steady(s, k, 1, 8, ByteClass::Alpha);
    let first = spec_take_while_m_n(part, 1, 8, ByteClass::Alpha);
    if first is Done {
        let n = first.used() as int;
        lemma_part_skip(s, k, n);
        lemma_subtags_steady(s.skip(n), k - n);
        let more = spec_subtags(part.skip(n));
        if more is Done {
            let m = n + more.used();
            assert(part.take(m) =~= s.take(m));
        }
    }
    lemma_take_while_m_n_steady(s, 0, 1, 8, ByteClass::Alpha);
    let whole = spec_take_while_m_n(s, 1, 8, ByteClass::Alpha);
    if whole is Done {
        let n = whole.used() as int;
        assert(s.skip(n).len() == s.len() - n);
        lemma_subtags_steady(s.skip(n), 0);
    }
}

pub(crate) proof fn lemma_lang_or_wild_steady(s: Seq<u8>, k: int)
    requires
        0 <= k <= s.len(),
    ensures
        steady(spec_lang_or_wild(s.take(k)), spec_lang_or_wild(s), s, k),
{
    lemma_tag_steady(s, k, "*"@, false);
    lemma_language_steady(s, k);
}

pub(crate) proof fn lemma_space_lang_or_wild_steady(s: Seq<u8>, k: int)
    requires
        0 <= k <= s.len(),
    ensures
        steady(spec_space_lang_or_wild(s.take(k)), spec_space_lang_or_wild(s), s, k),
{
    let part = s.take(k);
    lemma_byte_steady(s, k, 0x20);
    let read1 = spec_space(part);
    if read1 is Done {
        let n1 = read1.used() as int;
        lemma_part_skip(s, k, n1);
        lemma_lang_or_wild_steady(s.skip(n1), k - n1);
    }
    let whole1 = spec_space(s);
    if whole1 is Done {
        let m1 = whole1.used() as int;
        assert(s.skip(m1).len() == s.len() - m1);
        lemma_lang_or_wild_steady(s.skip(m1), 0);
    }
}

pub(crate) proof fn lemma_lang_steady(s: Seq<u8>, k: int)
    requires
        0 <= k <= s.len(),
    ensures
        steady(spec_lang(s.take(k)), spec_lang(s), s, k),
{
    let part = s.take(k);
    lemma_tag_steady(s, k, "LANG"@, true);
    let read1 = spec_tag_no_case(part, "LANG"@);
    if read1 is Done {
        let n1 = read1.used() as int;
        lemma_part_skip(s, k, n1);
        lemma_space_lang_or_wild_steady(s.skip(n1), k - n1);
    }
    let whole1 = spec_tag_no_case(s, "LANG"@);
    if whole1 is Done {
        let m1 = whole1.used() as int;
        assert(s.skip(m1).len() == s.len() - m1);
        lemma_space_lang_or_wild_steady(s.skip(m1), 0);
    }
}

/// Every verb is steady, and so is the first of them that matches.
pub(crate) proof fn lemma_verb_steady(s: Seq<u8>, k: int)
    requires
        0 <= k <= s.len(),
    ensures
        steady(spec_verb(s.take(k)), spec_verb(s), s, k),
{
    reveal(spec_verb);
    lemma_user_steady(s, k);
    lemma_pass_steady(s, k);
    lemma_apop_steady(s, k);
    lemma_bare_verbs_steady(s, k);
    lemma_list_steady(s, k);
    lemma_retr_steady(s, k);
    lemma_dele_steady(s, k);
    lemma_top_steady(s, k);
    lemma_uidl_steady(s, k);
    lemma_auth_steady(s, k);
    lemma_lang_steady(s, k);
}

pub(crate) proof fn lemma_command_steady(s: Seq<u8>, k: int)
    requires
        0 <= k <= s.len(),
    ensures
        steady(spec_command(s.take(k)), spec_command(s), s, k),
{
    let part = s.take(k);
    lemma_verb_steady(s, k);
    let read1 = spec_verb(part);
    if read1 is Done {
        let n1 = read1.used() as int;
        lemma_part_skip(s, k, n1);
        lemma_line_ending_steady(s.skip(n1), k - n1);
    }
    let whole1 = spec_verb(s);
    if whole1 is Done {
        let m1 = whole1.used() as int;
        assert(s.skip(m1).len() == s.len() - m1);
        lemma_line_ending_steady(s.skip(m1), 0);
    }
}

/// What the command parser reports on a part of the input is final,
/// unless it is "incomplete": on the whole input it reports the same command
/// and the same length, or the same syntax error.
pub proof fn law_command_is_settled(s: Seq<u8>, k: int)
    requires
        0 <= k <= s.len(),
    ensures
        settled(spec_command(s.take(k)), spec_command(s)),
{
    lemma_command_steady(s, k);
}

/// While a command is not yet read to its end, the parser asks for more:
/// every proper beginning of an input from which a command is read without
/// anything left over is incomplete, and never a syntax error.
pub proof fn law_truncated_command_is_incomplete(s: Seq<u8>, k: int)
    requires
        0 <= k < s.len(),
        spec_command(s) matches Parsed::Done(_, n) && n == s.len(),
    ensures
        spec_command(s.take(k)) == Parsed::<CommandView>::Incomplete,
{
    lemma_command_steady(s, k);
}

} // verus!
