//! Responses: what is reported on a part of the input is final.

use crate::parse::command::{spec_keyword_number, spec_keyword_space};
use crate::parse::response::{
    head_rule, spec_bare_capability, spec_body, spec_capa_tag, spec_capability,
    spec_coded_text, spec_dot_stuffed, spec_drop_listing, spec_expire, spec_head,
    spec_implementation, spec_known_capability, spec_language_listing, spec_line_of, spec_listing,
    spec_login_delay, spec_more_levels, spec_multi_line, spec_negative, spec_number_pair,
    spec_other_capability, spec_params, spec_policy, spec_positive, spec_resp_code,
    spec_resp_level, spec_sasl, spec_scan_listing, spec_single_line, spec_status,
    spec_status_line, spec_status_text, spec_terminator, spec_timestamp, spec_unique_id,
    spec_unique_id_listing, spec_user_flag, spec_utf8_capability, Status,
};
use crate::parse::token::{
    optional, then, spec_byte, spec_language, spec_led_words, spec_line_ending, spec_line_text,
    spec_number, spec_run_text, spec_space, spec_tag, spec_tag_no_case, spec_word, ByteClass,
    Parsed,
};
use crate::parse::{
    capability_rule, dot_stuffed_rule, drop_listing_rule, language_listing_rule,
    scan_listing_rule, spec_capability_listing, spec_greeting, spec_greeting_comment,
    spec_message_response, spec_optional_code, spec_optional_comment, spec_space_code,
    spec_space_comment, spec_status_response, unique_id_listing_rule,
};
use crate::streaming::command::{
    lemma_keyword_number_steady, lemma_keyword_space_steady, lemma_language_steady,
};
use crate::streaming::{
    lemma_byte_steady, lemma_line_ending_steady, lemma_not_line_ending_steady,
    lemma_number_steady, lemma_part_skip, lemma_tag_steady, lemma_take_while_m_n_steady,
    lemma_text_runs_steady, lemma_then_steady, settled, steady,
};
use crate::types::response::{
    CapabilityView, GreetingView, MultiLineView, Response, SingleLineView,
};
use vstd::prelude::*;
use vstd::string::*;

verus! {

// ----- response codes, timestamps, status lines -----
pub(crate) proof fn lemma_led_words_steady(s: Seq<u8>, k: int, lead: u8, class: ByteClass)
    requires
        0 <= k <= s.len(),
    ensures
        steady(spec_led_words(s.take(k), lead, class), spec_led_words(s, lead, class), s, k),
    decreases s.len(),
{
    let part = s.take(k);
    lemma_byte_steady(s, k, lead);
    let first = spec_byte(part, lead);
    if first is Done {
        let d = first.used() as int;
        lemma_part_skip(s, k, d);
        lemma_text_runs_steady(s.skip(d), k - d, class);
        let text = spec_word(part.skip(d), class);
        if text is Done {
            let n = d + text.used();
            if 0 < n {
                lemma_part_skip(s, k, n);
                lemma_led_words_steady(s.skip(n), k - n, lead, class);
            }
        }
    }
    lemma_byte_steady(s, 0, lead);
    let whole = spec_byte(s, lead);
    if whole is Done {
        let d = whole.used() as int;
        assert(s.skip(d).len() == s.len() - d);
        lemma_text_runs_steady(s.skip(d), 0, class);
        let text = spec_word(s.skip(d), class);
        if text is Done {
            let n = d + text.used();
            if 0 < n <= s.len() {
                assert(s.skip(n).len() == s.len() - n);
                lemma_led_words_steady(s.skip(n), 0, lead, class);
            }
        }
    }
}

pub(crate) proof fn lemma_resp_code_steady(s: Seq<u8>, k: int)
    requires
        0 <= k <= s.len(),
    ensures
        steady(spec_resp_code(s.take(k)), spec_resp_code(s), s, k),
{
    let part = s.take(k);
    lemma_tag_steady(s, k, "["@, false);
    let read1 = spec_tag(part, "["@);
    if read1 is Done {
        let n1 = read1.used() as int;
        lemma_part_skip(s, k, n1);
        lemma_text_runs_steady(s.skip(n1), k - n1, ByteClass::Level);
        let read2 = spec_resp_level(part.skip(n1));
        if read2 is Done {
            let n2 = n1 + read2.used();
            lemma_part_skip(s, k, n2);
            lemma_led_words_steady(s.skip(n2), k - n2, 0x2F, ByteClass::Level);
            let read3 = spec_more_levels(part.skip(n2));
            if read3 is Done {
                let n3 = n2 + read3.used();
                lemma_part_skip(s, k, n3);
                lemma_tag_steady(s.skip(n3), k - n3, "]"@, false);
            }
        }
    }
    let whole1 = spec_tag(s, "["@);
    if whole1 is Done {
        let m1 = whole1.used() as int;
        assert(s.skip(m1).len() == s.len() - m1);
        lemma_text_runs_steady(s.skip(m1), 0, ByteClass::Level);
        let whole2 = spec_resp_level(s.skip(m1));
        if whole2 is Done {
            let m2 = m1 + whole2.used();
            assert(s.skip(m2).len() == s.len() - m2);
            lemma_led_words_steady(s.skip(m2), 0, 0x2F, ByteClass::Level);
            let whole3 = spec_more_levels(s.skip(m2));
            if whole3 is Done {
                let m3 = m2 + whole3.used();
                assert(s.skip(m3).len() == s.len() - m3);
                lemma_tag_steady(s.skip(m3), 0, "]"@, false);
            }
        }
    }
}

pub(crate) proof fn lemma_timestamp_steady(s: Seq<u8>, k: int)
    requires
        0 <= k <= s.len(),
    ensures
        steady(spec_timestamp(s.take(k)), spec_timestamp(s), s, k),
{
    let part = s.take(k);
    lemma_tag_steady(s, k, "<"@, false);
    let read1 = spec_tag(part, "<"@);
    if read1 is Done {
        let n1 = read1.used() as int;
        lemma_part_skip(s, k, n1);
        lemma_text_runs_steady(s.skip(n1), k - n1, ByteClass::NotGreater);
        let read2 = spec_run_text(part.skip(n1), ByteClass::NotGreater);
        if read2 is Done {
            let n2 = n1 + read2.used();
            lemma_part_skip(s, k, n2);
            lemma_tag_steady(s.skip(n2), k - n2, ">"@, false);
        }
    }
    let whole1 = spec_tag(s, "<"@);
    if whole1 is Done {
        let m1 = whole1.used() as int;
        assert(s.skip(m1).len() == s.len() - m1);
        lemma_text_runs_steady(s.skip(m1), 0, ByteClass::NotGreater);
        let whole2 = spec_run_text(s.skip(m1), ByteClass::NotGreater);
        if whole2 is Done {
            let m2 = m1 + whole2.used();
            assert(s.skip(m2).len() == s.len() - m2);
            lemma_tag_steady(s.skip(m2), 0, ">"@, false);
        }
    }
}

pub(crate) proof fn lemma_status_steady(s: Seq<u8>, k: int)
    requires
        0 <= k <= s.len(),
    ensures
        steady(spec_status(s.take(k)), spec_status(s), s, k),
{
    lemma_tag_steady(s, k, "+OK"@, true);
    lemma_tag_steady(s, k, "-ERR"@, true);
}

pub(crate) proof fn lemma_coded_text_steady(s: Seq<u8>, k: int)
    requires
        0 <= k <= s.len(),
    ensures
        steady(spec_coded_text(s.take(k)), spec_coded_text(s), s, k),
{
    let part = s.take(k);
    lemma_resp_code_steady(s, k);
    let read1 = spec_resp_code(part);
    if read1 is Done {
        let n1 = read1.used() as int;
        lemma_part_skip(s, k, n1);
        lemma_byte_steady(s.skip(n1), k - n1, 0x20);
        let read2 = spec_space(part.skip(n1));
        if read2 is Done {
            let n2 = n1 + read2.used();
            lemma_part_skip(s, k, n2);
            lemma_not_line_ending_steady(s.skip(n2), k - n2);
        }
    }
    let whole1 = spec_resp_code(s);
    if whole1 is Done {
        let m1 = whole1.used() as int;
        assert(s.skip(m1).len() == s.len() - m1);
        lemma_byte_steady(s.skip(m1), 0, 0x20);
        let whole2 = spec_space(s.skip(m1));
        if whole2 is Done {
            let m2 = m1 + whole2.used();
            assert(s.skip(m2).len() == s.len() - m2);
            lemma_not_line_ending_steady(s.skip(m2), 0);
        }
    }
}

pub(crate) proof fn lemma_status_text_steady(s: Seq<u8>, k: int)
    requires
        0 <= k <= s.len(),
    ensures
        steady(spec_status_text(s.take(k)), spec_status_text(s), s, k),
{
    lemma_coded_text_steady(s, k);
    lemma_text_runs_steady(s, k, ByteClass::Status);
}

pub(crate) proof fn lemma_head_steady(s: Seq<u8>, k: int)
    requires
        0 <= k <= s.len(),
    ensures
        steady(spec_head(s.take(k)), spec_head(s), s, k),
{
    reveal(spec_head);
    let part = s.take(k);
    lemma_byte_steady(s, k, 0x20);
    let read1 = spec_space(part);
    if read1 is Done {
        let n1 = read1.used() as int;
        lemma_part_skip(s, k, n1);
        lemma_status_text_steady(s.skip(n1), k - n1);
    }
    let whole1 = spec_space(s);
    if whole1 is Done {
        let m1 = whole1.used() as int;
        assert(s.skip(m1).len() == s.len() - m1);
        lemma_status_text_steady(s.skip(m1), 0);
    }
}

// ----- listings -----

pub(crate) proof fn lemma_number_pair_steady(s: Seq<u8>, k: int)
    requires
        0 <= k <= s.len(),
    ensures
        steady(spec_number_pair(s.take(k)), spec_number_pair(s), s, k),
{
    let part = s.take(k);
    lemma_number_steady(s, k);
    let read1 = spec_number(part);
    if read1 is Done {
        let n1 = read1.used() as int;
        lemma_part_skip(s, k, n1);
        lemma_byte_steady(s.skip(n1), k - n1, 0x20);
        let read2 = spec_space(part.skip(n1));
        if read2 is Done {
            let n2 = n1 + read2.used();
            lemma_part_skip(s, k, n2);
            lemma_number_steady(s.skip(n2), k - n2);
        }
    }
    let whole1 = spec_number(s);
    if whole1 is Done {
        let m1 = whole1.used() as int;
        assert(s.skip(m1).len() == s.len() - m1);
        lemma_byte_steady(s.skip(m1), 0, 0x20);
        let whole2 = spec_space(s.skip(m1));
        if whole2 is Done {
            let m2 = m1 + whole2.used();
            assert(s.skip(m2).len() == s.len() - m2);
            lemma_number_steady(s.skip(m2), 0);
        }
    }
}

pub(crate) proof fn lemma_listings_steady(s: Seq<u8>, k: int)
    requires
        0 <= k <= s.len(),
    ensures
        steady(spec_drop_listing(s.take(k)), spec_drop_listing(s), s, k),
        steady(spec_scan_listing(s.take(k)), spec_scan_listing(s), s, k),
{
    lemma_number_pair_steady(s, k);
}

pub(crate) proof fn lemma_unique_id_steady(s: Seq<u8>, k: int)
    requires
        0 <= k <= s.len(),
    ensures
        steady(spec_unique_id(s.take(k)), spec_unique_id(s), s, k),
{
    lemma_take_while_m_n_steady(s, k, 1, 70, ByteClass::UniqueId);
}

pub(crate) proof fn lemma_unique_id_listing_steady(s: Seq<u8>, k: int)
    requires
        0 <= k <= s.len(),
    ensures
        steady(spec_unique_id_listing(s.take(k)), spec_unique_id_listing(s), s, k),
{
    let part = s.take(k);
    lemma_number_steady(s, k);
    let read1 = spec_number(part);
    if read1 is Done {
        let n1 = read1.used() as int;
        lemma_part_skip(s, k, n1);
        lemma_byte_steady(s.skip(n1), k - n1, 0x20);
        let read2 = spec_space(part.skip(n1));
        if read2 is Done {
            let n2 = n1 + read2.used();
            lemma_part_skip(s, k, n2);
            lemma_unique_id_steady(s.skip(n2), k - n2);
        }
    }
    let whole1 = spec_number(s);
    if whole1 is Done {
        let m1 = whole1.used() as int;
        assert(s.skip(m1).len() == s.len() - m1);
        lemma_byte_steady(s.skip(m1), 0, 0x20);
        let whole2 = spec_space(s.skip(m1));
        if whole2 is Done {
            let m2 = m1 + whole2.used();
            assert(s.skip(m2).len() == s.len() - m2);
            lemma_unique_id_steady(s.skip(m2), 0);
        }
    }
}

pub(crate) proof fn lemma_language_listing_steady(s: Seq<u8>, k: int)
    requires
        0 <= k <= s.len(),
    ensures
        steady(spec_language_listing(s.take(k)), spec_language_listing(s), s, k),
{
    let part = s.take(k);
    lemma_language_steady(s, k);
    let read1 = spec_language(part);
    if read1 is Done {
        let n1 = read1.used() as int;
        lemma_part_skip(s, k, n1);
        lemma_byte_steady(s.skip(n1), k - n1, 0x20);
        let read2 = spec_space(part.skip(n1));
        if read2 is Done {
            let n2 = n1 + read2.used();
            lemma_part_skip(s, k, n2);
            lemma_not_line_ending_steady(s.skip(n2), k - n2);
        }
    }
    let whole1 = spec_language(s);
    if whole1 is Done {
        let m1 = whole1.used() as int;
        assert(s.skip(m1).len() == s.len() - m1);
        lemma_byte_steady(s.skip(m1), 0, 0x20);
        let whole2 = spec_space(s.skip(m1));
        if whole2 is Done {
            let m2 = m1 + whole2.used();
            assert(s.skip(m2).len() == s.len() - m2);
            lemma_not_line_ending_steady(s.skip(m2), 0);
        }
    }
}

pub(crate) proof fn lemma_dot_stuffed_steady(s: Seq<u8>, k: int)
    requires
        0 <= k <= s.len(),
    ensures
        steady(spec_dot_stuffed(s.take(k)), spec_dot_stuffed(s), s, k),
{
    lemma_not_line_ending_steady(s, k);
}

// ----- capabilities -----

pub(crate) proof fn lemma_bare_capability_steady(
    s: Seq<u8>,
    k: int,
    tag: Seq<char>,
    value: CapabilityView,
)
    requires
        0 <= k <= s.len(),
    ensures
        steady(
            spec_bare_capability(s.take(k), tag, value),
            spec_bare_capability(s, tag, value),
            s,
            k,
        ),
{
    let part = s.take(k);
    lemma_tag_steady(s, k, tag, true);
    let read1 = spec_tag_no_case(part, tag);
    if read1 is Done {
        let n1 = read1.used() as int;
        lemma_part_skip(s, k, n1);
        lemma_line_ending_steady(s.skip(n1), k - n1);
    }
    let whole1 = spec_tag_no_case(s, tag);
    if whole1 is Done {
        let m1 = whole1.used() as int;
        assert(s.skip(m1).len() == s.len() - m1);
        lemma_line_ending_steady(s.skip(m1), 0);
    }
}

pub(crate) proof fn lemma_user_flag_steady(s: Seq<u8>, k: int)
    requires
        0 <= k <= s.len(),
    ensures
        steady(spec_user_flag(s.take(k)), spec_user_flag(s), s, k),
{
    lemma_tag_steady(s, k, " USER"@, true);
}

pub(crate) proof fn lemma_sasl_steady(s: Seq<u8>, k: int)
    requires
        0 <= k <= s.len(),
    ensures
        steady(spec_sasl(s.take(k)), spec_sasl(s), s, k),
{
    let part = s.take(k);
    lemma_tag_steady(s, k, "SASL"@, true);
    let read1 = spec_tag_no_case(part, "SASL"@);
    if read1 is Done {
        let n1 = read1.used() as int;
        lemma_part_skip(s, k, n1);
        lemma_led_words_steady(s.skip(n1), k - n1, 0x20, ByteClass::Visible);
        let read2 = spec_params(part.skip(n1));
        if read2 is Done {
            let n2 = n1 + read2.used();
            lemma_part_skip(s, k, n2);
            lemma_line_ending_steady(s.skip(n2), k - n2);
        }
    }
    let whole1 = spec_tag_no_case(s, "SASL"@);
    if whole1 is Done {
        let m1 = whole1.used() as int;
        assert(s.skip(m1).len() == s.len() - m1);
        lemma_led_words_steady(s.skip(m1), 0, 0x20, ByteClass::Visible);
        let whole2 = spec_params(s.skip(m1));
        if whole2 is Done {
            let m2 = m1 + whole2.used();
            assert(s.skip(m2).len() == s.len() - m2);
            lemma_line_ending_steady(s.skip(m2), 0);
        }
    }
}

pub(crate) proof fn lemma_login_delay_steady(s: Seq<u8>, k: int)
    requires
        0 <= k <= s.len(),
    ensures
        steady(spec_login_delay(s.take(k)), spec_login_delay(s), s, k),
{
    let part = s.take(k);
    lemma_keyword_number_steady(s, k, "LOGIN-DELAY"@);
    let read1 = spec_keyword_number(part, "LOGIN-DELAY"@);
    if read1 is Done {
        let n1 = read1.used() as int;
        lemma_part_skip(s, k, n1);
        lemma_user_flag_steady(s.skip(n1), k - n1);
        let read2 = spec_user_flag(part.skip(n1));
        if read2 is Done {
            let n2 = n1 + read2.used();
            lemma_part_skip(s, k, n2);
            lemma_line_ending_steady(s.skip(n2), k - n2);
        }
    }
    let whole1 = spec_keyword_number(s, "LOGIN-DELAY"@);
    if whole1 is Done {
        let m1 = whole1.used() as int;
        assert(s.skip(m1).len() == s.len() - m1);
        lemma_user_flag_steady(s.skip(m1), 0);
        let whole2 = spec_user_flag(s.skip(m1));
        if whole2 is Done {
            let m2 = m1 + whole2.used();
            assert(s.skip(m2).len() == s.len() - m2);
            lemma_line_ending_steady(s.skip(m2), 0);
        }
    }
}

pub(crate) proof fn lemma_policy_steady(s: Seq<u8>, k: int)
    requires
        0 <= k <= s.len(),
    ensures
        steady(spec_policy(s.take(k)), spec_policy(s), s, k),
{
    lemma_number_steady(s, k);
    lemma_tag_steady(s, k, "NEVER"@, true);
}

pub(crate) proof fn lemma_expire_steady(s: Seq<u8>, k: int)
    requires
        0 <= k <= s.len(),
    ensures
        steady(spec_expire(s.take(k)), spec_expire(s), s, k),
{
    let part = s.take(k);
    lemma_keyword_space_steady(s, k, "EXPIRE"@);
    let read1 = spec_keyword_space(part, "EXPIRE"@);
    if read1 is Done {
        let n1 = read1.used() as int;
        lemma_part_skip(s, k, n1);
        lemma_policy_steady(s.skip(n1), k - n1);
        let read2 = spec_policy(part.skip(n1));
        if read2 is Done {
            let n2 = n1 + read2.used();
            lemma_part_skip(s, k, n2);
            lemma_user_flag_steady(s.skip(n2), k - n2);
            let read3 = spec_user_flag(part.skip(n2));
            if read3 is Done {
                let n3 = n2 + read3.used();
                lemma_part_skip(s, k, n3);
                lemma_line_ending_steady(s.skip(n3), k - n3);
            }
        }
    }
    let whole1 = spec_keyword_space(s, "EXPIRE"@);
    if whole1 is Done {
        let m1 = whole1.used() as int;
        assert(s.skip(m1).len() == s.len() - m1);
        lemma_policy_steady(s.skip(m1), 0);
        let whole2 = spec_policy(s.skip(m1));
        if whole2 is Done {
            let m2 = m1 + whole2.used();
            assert(s.skip(m2).len() == s.len() - m2);
            lemma_user_flag_steady(s.skip(m2), 0);
            let whole3 = spec_user_flag(s.skip(m2));
            if whole3 is Done {
                let m3 = m2 + whole3.used();
                assert(s.skip(m3).len() == s.len() - m3);
                lemma_line_ending_steady(s.skip(m3), 0);
            }
        }
    }
}

pub(crate) proof fn lemma_implementation_steady(s: Seq<u8>, k: int)
    requires
        0 <= k <= s.len(),
    ensures
        steady(spec_implementation(s.take(k)), spec_implementation(s), s, k),
{
    let part = s.take(k);
    lemma_keyword_space_steady(s, k, "IMPLEMENTATION"@);
    let read1 = spec_keyword_space(part, "IMPLEMENTATION"@);
    if read1 is Done {
        let n1 = read1.used() as int;
        lemma_part_skip(s, k, n1);
        lemma_not_line_ending_steady(s.skip(n1), k - n1);
        let read2 = spec_line_text(part.skip(n1));
        if read2 is Done {
            let n2 = n1 + read2.used();
            lemma_part_skip(s, k, n2);
            lemma_line_ending_steady(s.skip(n2), k - n2);
        }
    }
    let whole1 = spec_keyword_space(s, "IMPLEMENTATION"@);
    if whole1 is Done {
        let m1 = whole1.used() as int;
        assert(s.skip(m1).len() == s.len() - m1);
        lemma_not_line_ending_steady(s.skip(m1), 0);
        let whole2 = spec_line_text(s.skip(m1));
        if whole2 is Done {
            let m2 = m1 + whole2.used();
            assert(s.skip(m2).len() == s.len() - m2);
            lemma_line_ending_steady(s.skip(m2), 0);
        }
    }
}

pub(crate) proof fn lemma_utf8_capability_steady(s: Seq<u8>, k: int)
    requires
        0 <= k <= s.len(),
    ensures
        steady(spec_utf8_capability(s.take(k)), spec_utf8_capability(s), s, k),
{
    let part = s.take(k);
    lemma_tag_steady(s, k, "UTF8"@, true);
    let read1 = spec_tag_no_case(part, "UTF8"@);
    if read1 is Done {
        let n1 = read1.used() as int;
        lemma_part_skip(s, k, n1);
        lemma_user_flag_steady(s.skip(n1), k - n1);
        let read2 = spec_user_flag(part.skip(n1));
        if read2 is Done {
            let n2 = n1 + read2.used();
            lemma_part_skip(s, k, n2);
            lemma_line_ending_steady(s.skip(n2), k - n2);
        }
    }
    let whole1 = spec_tag_no_case(s, "UTF8"@);
    if whole1 is Done {
        let m1 = whole1.used() as int;
        assert(s.skip(m1).len() == s.len() - m1);
        lemma_user_flag_steady(s.skip(m1), 0);
        let whole2 = spec_user_flag(s.skip(m1));
        if whole2 is Done {
            let m2 = m1 + whole2.used();
            assert(s.skip(m2).len() == s.len() - m2);
            lemma_line_ending_steady(s.skip(m2), 0);
        }
    }
}

pub(crate) proof fn lemma_other_capability_steady(s: Seq<u8>, k: int)
    requires
        0 <= k <= s.len(),
    ensures
        steady(spec_other_capability(s.take(k)), spec_other_capability(s), s, k),
{
    let part = s.take(k);
    lemma_text_runs_steady(s, k, ByteClass::Tag);
    let read1 = spec_capa_tag(part);
    if read1 is Done {
        let n1 = read1.used() as int;
        lemma_part_skip(s, k, n1);
        lemma_led_words_steady(s.skip(n1), k - n1, 0x20, ByteClass::Visible);
        let read2 = spec_params(part.skip(n1));
        if read2 is Done {
            let n2 = n1 + read2.used();
            lemma_part_skip(s, k, n2);
            lemma_line_ending_steady(s.skip(n2), k - n2);
        }
    }
    let whole1 = spec_capa_tag(s);
    if whole1 is Done {
        let m1 = whole1.used() as int;
        assert(s.skip(m1).len() == s.len() - m1);
        lemma_led_words_steady(s.skip(m1), 0, 0x20, ByteClass::Visible);
        let whole2 = spec_params(s.skip(m1));
        if whole2 is Done {
            let m2 = m1 + whole2.used();
            assert(s.skip(m2).len() == s.len() - m2);
            lemma_line_ending_steady(s.skip(m2), 0);
        }
    }
}

pub(crate) proof fn lemma_known_capability_steady(s: Seq<u8>, k: int)
    requires
        0 <= k <= s.len(),
    ensures
        steady(spec_known_capability(s.take(k)), spec_known_capability(s), s, k),
{
    reveal(spec_known_capability);
    lemma_bare_capability_steady(s, k, "TOP"@, CapabilityView::Top);
    lemma_bare_capability_steady(s, k, "USER"@, CapabilityView::User);
    lemma_sasl_steady(s, k);
    lemma_bare_capability_steady(s, k, "RESP-CODES"@, CapabilityView::RespCodes);
    lemma_login_delay_steady(s, k);
    lemma_bare_capability_steady(s, k, "PIPELINING"@, CapabilityView::Pipelining);
    lemma_expire_steady(s, k);
    lemma_bare_capability_steady(s, k, "UIDL"@, CapabilityView::Uidl);
    lemma_implementation_steady(s, k);
    lemma_bare_capability_steady(s, k, "STLS"@, CapabilityView::Stls);
    lemma_bare_capability_steady(s, k, "AUTH-RESP-CODE"@, CapabilityView::AuthRespCode);
    lemma_bare_capability_steady(s, k, "LANG"@, CapabilityView::Lang);
    lemma_utf8_capability_steady(s, k);
}

pub(crate) proof fn lemma_capability_steady(s: Seq<u8>, k: int)
    requires
        0 <= k <= s.len(),
    ensures
        steady(spec_capability(s.take(k)), spec_capability(s), s, k),
{
    lemma_known_capability_steady(s, k);
    lemma_other_capability_steady(s, k);
}

// ----- the greeting -----

pub(crate) proof fn lemma_space_code_steady(s: Seq<u8>, k: int)
    requires
        0 <= k <= s.len(),
    ensures
        steady(spec_space_code(s.take(k)), spec_space_code(s), s, k),
{
    let part = s.take(k);
    lemma_byte_steady(s, k, 0x20);
    let read1 = spec_space(part);
    if read1 is Done {
        let n1 = read1.used() as int;
        lemma_part_skip(s, k, n1);
        lemma_resp_code_steady(s.skip(n1), k - n1);
    }
    let whole1 = spec_space(s);
    if whole1 is Done {
        let m1 = whole1.used() as int;
        assert(s.skip(m1).len() == s.len() - m1);
        lemma_resp_code_steady(s.skip(m1), 0);
    }
}

pub(crate) proof fn lemma_greeting_comment_steady(s: Seq<u8>, k: int)
    requires
        0 <= k <= s.len(),
    ensures
        steady(spec_greeting_comment(s.take(k)), spec_greeting_comment(s), s, k),
{
    let part = s.take(k);
    lemma_text_runs_steady(s, k, ByteClass::Greeting);
    let read1 = spec_run_text(part, ByteClass::Greeting);
    if read1 is Done {
        let n1 = read1.used() as int;
        lemma_part_skip(s, k, n1);
        lemma_timestamp_steady(s.skip(n1), k - n1);
        let read2 = optional(spec_timestamp(part.skip(n1)));
        if read2 is Done {
            let n2 = n1 + read2.used();
            lemma_part_skip(s, k, n2);
            lemma_text_runs_steady(s.skip(n2), k - n2, ByteClass::Greeting);
        }
    }
    let whole1 = spec_run_text(s, ByteClass::Greeting);
    if whole1 is Done {
        let m1 = whole1.used() as int;
        assert(s.skip(m1).len() == s.len() - m1);
        lemma_timestamp_steady(s.skip(m1), 0);
        let whole2 = optional(spec_timestamp(s.skip(m1)));
        if whole2 is Done {
            let m2 = m1 + whole2.used();
            assert(s.skip(m2).len() == s.len() - m2);
            lemma_text_runs_steady(s.skip(m2), 0, ByteClass::Greeting);
        }
    }
}

pub(crate) proof fn lemma_space_comment_steady(s: Seq<u8>, k: int)
    requires
        0 <= k <= s.len(),
    ensures
        steady(spec_space_comment(s.take(k)), spec_space_comment(s), s, k),
{
    let part = s.take(k);
    lemma_byte_steady(s, k, 0x20);
    let read1 = spec_space(part);
    if read1 is Done {
        let n1 = read1.used() as int;
        lemma_part_skip(s, k, n1);
        lemma_greeting_comment_steady(s.skip(n1), k - n1);
    }
    let whole1 = spec_space(s);
    if whole1 is Done {
        let m1 = whole1.used() as int;
        assert(s.skip(m1).len() == s.len() - m1);
        lemma_greeting_comment_steady(s.skip(m1), 0);
    }
}

pub(crate) proof fn lemma_optional_parts_steady(s: Seq<u8>, k: int)
    requires
        0 <= k <= s.len(),
    ensures
        steady(spec_optional_code(s.take(k)), spec_optional_code(s), s, k),
        steady(spec_optional_comment(s.take(k)), spec_optional_comment(s), s, k),
{
    reveal(spec_optional_code);
    reveal(spec_optional_comment);
    lemma_space_code_steady(s, k);
    lemma_space_comment_steady(s, k);
}

pub(crate) proof fn lemma_greeting_steady(s: Seq<u8>, k: int)
    requires
        0 <= k <= s.len(),
    ensures
        steady(spec_greeting(s.take(k)), spec_greeting(s), s, k),
{
    let part = s.take(k);
    let status = spec_tag_no_case(part, "+OK"@);
    let code = spec_optional_code(part.skip(status.used() as int));
    let comment = spec_optional_comment(part.skip((status.used() + code.used()) as int));
    let end = spec_line_ending(
        part.skip((status.used() + code.used() + comment.used()) as int),
    );
    let whole_status = spec_tag_no_case(s, "+OK"@);
    let whole_code = spec_optional_code(s.skip(whole_status.used() as int));
    let whole_comment = spec_optional_comment(
        s.skip((whole_status.used() + whole_code.used()) as int),
    );
    let whole_end = spec_line_ending(
        s.skip((whole_status.used() + whole_code.used() + whole_comment.used()) as int),
    );
    // The status indicator and the response code.
    lemma_tag_steady(s, k, "+OK"@, true);
    if status is Done {
        let n = status.used() as int;
        lemma_part_skip(s, k, n);
        lemma_optional_parts_steady(s.skip(n), k - n);
    }
    if whole_status is Done {
        let n = whole_status.used() as int;
        assert(s.skip(n).len() == s.len() - n);
        lemma_optional_parts_steady(s.skip(n), 0);
    }
    lemma_then_steady(status, whole_status, code, whole_code, s, k);
    // The comment.
    let first = then(status, code);
    let whole_first = then(whole_status, whole_code);
    if first is Done {
        let n = first.used() as int;
        lemma_part_skip(s, k, n);
        lemma_optional_parts_steady(s.skip(n), k - n);
    }
    if whole_first is Done {
        let n = whole_first.used() as int;
        assert(s.skip(n).len() == s.len() - n);
        lemma_optional_parts_steady(s.skip(n), 0);
    }
    lemma_then_steady(first, whole_first, comment, whole_comment, s, k);
    // The line ending.
    let second = then(first, comment);
    let whole_second = then(whole_first, whole_comment);
    if second is Done {
        let n = second.used() as int;
        lemma_part_skip(s, k, n);
        lemma_line_ending_steady(s.skip(n), k - n);
    }
    if whole_second is Done {
        let n = whole_second.used() as int;
        assert(s.skip(n).len() == s.len() - n);
        lemma_line_ending_steady(s.skip(n), 0);
    }
    lemma_then_steady(second, whole_second, end, whole_end, s, k);
}

// ----- single-line and multi-line responses -----
/// A rule is steady: on every input, and on every part of it.
pub open spec fn is_steady<V>(rule: spec_fn(Seq<u8>) -> Parsed<V>) -> bool {
    forall|x: Seq<u8>, j: int|
        0 <= j <= x.len() ==> steady(#[trigger] rule(x.take(j)), rule(x), x, j)
}

pub(crate) proof fn lemma_negative_steady<V>(s: Seq<u8>, k: int)
    requires
        0 <= k <= s.len(),
    ensures
        steady(spec_negative::<V>(s.take(k)), spec_negative::<V>(s), s, k),
{
    let part = s.take(k);
    lemma_head_steady(s, k);
    let line = spec_head(part);
    if line is Done {
        let n = line.used() as int;
        lemma_part_skip(s, k, n);
        lemma_line_ending_steady(s.skip(n), k - n);
    }
    lemma_head_steady(s, 0);
    let whole = spec_head(s);
    if whole is Done {
        let n = whole.used() as int;
        assert(s.skip(n).len() == s.len() - n);
        lemma_line_ending_steady(s.skip(n), 0);
    }
}

pub(crate) proof fn lemma_positive_steady<V>(
    rule: spec_fn(Seq<u8>) -> Parsed<V>,
    payload_required: bool,
    s: Seq<u8>,
    k: int,
)
    requires
        0 <= k <= s.len(),
        is_steady(rule),
    ensures
        steady(
            spec_positive(rule, payload_required, s.take(k)),
            spec_positive(rule, payload_required, s),
            s,
            k,
        ),
{
    let part = s.take(k);
    lemma_byte_steady(s, k, 0x20);
    let gap = if payload_required {
        spec_space(part)
    } else {
        Parsed::Done((), 0)
    };
    if gap is Done {
        let g = gap.used() as int;
        lemma_part_skip(s, k, g);
        assert(steady(rule(s.skip(g).take(k - g)), rule(s.skip(g)), s.skip(g), k - g));
        let payload = rule(part.skip(g));
        if payload is Done {
            let n = g + payload.used();
            lemma_part_skip(s, k, n);
            lemma_line_ending_steady(s.skip(n), k - n);
        }
    }
    let whole_gap = if payload_required {
        spec_space(s)
    } else {
        Parsed::Done((), 0)
    };
    if whole_gap is Done {
        let g = whole_gap.used() as int;
        assert(s.skip(g).len() == s.len() - g);
        assert(steady(rule(s.skip(g).take(0)), rule(s.skip(g)), s.skip(g), 0));
        let payload = rule(s.skip(g));
        if payload is Done {
            let n = g + payload.used();
            assert(s.skip(n).len() == s.len() - n);
            lemma_line_ending_steady(s.skip(n), 0);
        }
    }
}

pub(crate) proof fn lemma_single_line_steady<V>(
    rule: spec_fn(Seq<u8>) -> Parsed<V>,
    payload_required: bool,
    s: Seq<u8>,
    k: int,
)
    requires
        0 <= k <= s.len(),
        is_steady(rule),
    ensures
        steady(
            spec_single_line(rule, payload_required, s.take(k)),
            spec_single_line(rule, payload_required, s),
            s,
            k,
        ),
{
    let part = s.take(k);
    lemma_status_steady(s, k);
    let status = spec_status(part);
    if status is Done {
        let n = status.used() as int;
        lemma_part_skip(s, k, n);
        lemma_positive_steady(rule, payload_required, s.skip(n), k - n);
        lemma_negative_steady::<V>(s.skip(n), k - n);
    }
    let whole = spec_status(s);
    if whole is Done {
        let n = whole.used() as int;
        assert(s.skip(n).len() == s.len() - n);
        lemma_positive_steady(rule, payload_required, s.skip(n), 0);
        lemma_negative_steady::<V>(s.skip(n), 0);
    }
}

pub(crate) proof fn lemma_terminator_steady(s: Seq<u8>, k: int)
    requires
        0 <= k <= s.len(),
    ensures
        steady(spec_terminator(s.take(k)), spec_terminator(s), s, k),
{
    let part = s.take(k);
    lemma_byte_steady(s, k, 0x2E);
    let dot = spec_byte(part, 0x2E);
    if dot is Done {
        lemma_part_skip(s, k, 1);
        lemma_line_ending_steady(s.skip(1), k - 1);
    }
    let whole = spec_byte(s, 0x2E);
    if whole is Done {
        assert(s.skip(1).len() == s.len() - 1);
        lemma_line_ending_steady(s.skip(1), 0);
    }
}

pub(crate) proof fn lemma_line_of_steady<V>(
    rule: spec_fn(Seq<u8>) -> Parsed<V>,
    own_ending: bool,
    s: Seq<u8>,
    k: int,
)
    requires
        0 <= k <= s.len(),
        is_steady(rule),
    ensures
        steady(
            spec_line_of(rule, own_ending, s.take(k)),
            spec_line_of(rule, own_ending, s),
            s,
            k,
        ),
{
    let part = s.take(k);
    assert(steady(rule(s.take(k)), rule(s), s, k));
    let item = rule(part);
    if item is Done {
        let i = item.used() as int;
        lemma_part_skip(s, k, i);
        lemma_line_ending_steady(s.skip(i), k - i);
    }
    assert(steady(rule(s.take(0)), rule(s), s, 0));
    let whole = rule(s);
    if whole is Done {
        let i = whole.used() as int;
        assert(s.skip(i).len() == s.len() - i);
        lemma_line_ending_steady(s.skip(i), 0);
    }
}

pub(crate) proof fn lemma_body_steady<V>(
    rule: spec_fn(Seq<u8>) -> Parsed<V>,
    own_ending: bool,
    s: Seq<u8>,
    k: int,
)
    requires
        0 <= k <= s.len(),
        is_steady(rule),
    ensures
        steady(spec_body(rule, own_ending, s.take(k)), spec_body(rule, own_ending, s), s, k),
    decreases s.len(),
{
    let part = s.take(k);
    lemma_terminator_steady(s, k);
    lemma_line_of_steady(rule, own_ending, s, k);
    if spec_terminator(part) is Invalid {
        if let Parsed::Done(_, n) = spec_line_of(rule, own_ending, part) {
            if 0 < n {
                lemma_part_skip(s, k, n as int);
                lemma_body_steady(rule, own_ending, s.skip(n as int), k - n);
            }
        }
    }
    if spec_terminator(s) is Invalid {
        if let Parsed::Done(_, n) = spec_line_of(rule, own_ending, s) {
            if 0 < n <= s.len() {
                assert(s.skip(n as int).len() == s.len() - n);
                lemma_body_steady(rule, own_ending, s.skip(n as int), 0);
            }
        }
    }
}

/// The rule of a status line is steady.
pub(crate) proof fn lemma_head_rule_steady()
    ensures
        is_steady(head_rule()),
{
    assert forall|x: Seq<u8>, j: int| 0 <= j <= x.len() implies steady(
        #[trigger] head_rule()(x.take(j)),
        head_rule()(x),
        x,
        j,
    ) by {
        lemma_head_steady(x, j);
    }
}

pub(crate) proof fn lemma_listing_steady<V>(
    rule: spec_fn(Seq<u8>) -> Parsed<V>,
    own_ending: bool,
    s: Seq<u8>,
    k: int,
)
    requires
        0 <= k <= s.len(),
        is_steady(rule),
    ensures
        steady(
            spec_listing(rule, own_ending, s.take(k)),
            spec_listing(rule, own_ending, s),
            s,
            k,
        ),
{
    let part = s.take(k);
    lemma_head_rule_steady();
    lemma_single_line_steady(head_rule(), false, s, k);
    let first = spec_status_line(part);
    if first is Done {
        let n = first.used() as int;
        lemma_part_skip(s, k, n);
        lemma_body_steady(rule, own_ending, s.skip(n), k - n);
    }
    lemma_single_line_steady(head_rule(), false, s, 0);
    let whole = spec_status_line(s);
    if whole is Done {
        let n = whole.used() as int;
        assert(s.skip(n).len() == s.len() - n);
        lemma_body_steady(rule, own_ending, s.skip(n), 0);
    }
}

pub(crate) proof fn lemma_multi_line_steady<V>(
    rule: spec_fn(Seq<u8>) -> Parsed<V>,
    s: Seq<u8>,
    k: int,
)
    requires
        0 <= k <= s.len(),
        is_steady(rule),
    ensures
        steady(spec_multi_line(rule, s.take(k)), spec_multi_line(rule, s), s, k),
{
    lemma_listing_steady(rule, false, s, k);
}

/// The rules of the payloads and of the body lines are steady.
pub(crate) proof fn lemma_rules_steady()
    ensures
        is_steady(head_rule()),
        is_steady(drop_listing_rule()),
        is_steady(scan_listing_rule()),
        is_steady(unique_id_listing_rule()),
        is_steady(language_listing_rule()),
        is_steady(dot_stuffed_rule()),
        is_steady(capability_rule()),
{
    lemma_head_rule_steady();
    assert forall|x: Seq<u8>, j: int| 0 <= j <= x.len() implies steady(
        #[trigger] drop_listing_rule()(x.take(j)),
        drop_listing_rule()(x),
        x,
        j,
    ) by {
        lemma_listings_steady(x, j);
    }
    assert forall|x: Seq<u8>, j: int| 0 <= j <= x.len() implies steady(
        #[trigger] scan_listing_rule()(x.take(j)),
        scan_listing_rule()(x),
        x,
        j,
    ) by {
        lemma_listings_steady(x, j);
    }
    assert forall|x: Seq<u8>, j: int| 0 <= j <= x.len() implies steady(
        #[trigger] unique_id_listing_rule()(x.take(j)),
        unique_id_listing_rule()(x),
        x,
        j,
    ) by {
        lemma_unique_id_listing_steady(x, j);
    }
    assert forall|x: Seq<u8>, j: int| 0 <= j <= x.len() implies steady(
        #[trigger] language_listing_rule()(x.take(j)),
        language_listing_rule()(x),
        x,
        j,
    ) by {
        lemma_language_listing_steady(x, j);
    }
    assert forall|x: Seq<u8>, j: int| 0 <= j <= x.len() implies steady(
        #[trigger] dot_stuffed_rule()(x.take(j)),
        dot_stuffed_rule()(x),
        x,
        j,
    ) by {
        lemma_dot_stuffed_steady(x, j);
    }
    assert forall|x: Seq<u8>, j: int| 0 <= j <= x.len() implies steady(
        #[trigger] capability_rule()(x.take(j)),
        capability_rule()(x),
        x,
        j,
    ) by {
        lemma_capability_steady(x, j);
    }
}

// ----- the laws -----
/// What the greeting parser reports on a part of the input is final,
/// unless it is "incomplete".
pub proof fn law_greeting_is_settled(s: Seq<u8>, k: int)
    requires
        0 <= k <= s.len(),
    ensures
        settled(spec_greeting(s.take(k)), spec_greeting(s)),
{
    lemma_greeting_steady(s, k);
}

/// While a greeting is not yet read to its end, the parser asks for more.
pub proof fn law_truncated_greeting_is_incomplete(s: Seq<u8>, k: int)
    requires
        0 <= k < s.len(),
        spec_greeting(s) matches Parsed::Done(_, n) && n == s.len(),
    ensures
        spec_greeting(s.take(k)) == Parsed::<GreetingView>::Incomplete,
{
    lemma_greeting_steady(s, k);
}

/// What the capability parser reports on a part of the input is final,
/// unless it is "incomplete".
pub proof fn law_capability_is_settled(s: Seq<u8>, k: int)
    requires
        0 <= k <= s.len(),
    ensures
        settled(spec_capability(s.take(k)), spec_capability(s)),
{
    lemma_capability_steady(s, k);
}

/// What a single-line response comes to on a part of the input is final,
/// unless it is "incomplete", where the same holds of the payload rule.
pub proof fn law_single_line_is_settled<V>(
    rule: spec_fn(Seq<u8>) -> Parsed<V>,
    payload_required: bool,
    s: Seq<u8>,
    k: int,
)
    requires
        0 <= k <= s.len(),
        is_steady(rule),
    ensures
        settled(
            spec_single_line(rule, payload_required, s.take(k)),
            spec_single_line(rule, payload_required, s),
        ),
{
    lemma_single_line_steady(rule, payload_required, s, k);
}

/// What a multi-line response comes to on a part of the input is final,
/// unless it is "incomplete", where the same holds of the line rule.
pub proof fn law_multi_line_is_settled<V>(rule: spec_fn(Seq<u8>) -> Parsed<V>, s: Seq<u8>, k: int)
    requires
        0 <= k <= s.len(),
        is_steady(rule),
    ensures
        settled(spec_multi_line(rule, s.take(k)), spec_multi_line(rule, s)),
{
    lemma_multi_line_steady(rule, s, k);
}

/// While a multi-line response is not yet read to the end of its
/// terminating line, the parser asks for more.
pub proof fn law_truncated_multi_line_is_incomplete<V>(
    rule: spec_fn(Seq<u8>) -> Parsed<V>,
    s: Seq<u8>,
    k: int,
)
    requires
        0 <= k < s.len(),
        is_steady(rule),
        spec_multi_line(rule, s) matches Parsed::Done(_, n) && n == s.len(),
    ensures
        spec_multi_line(rule, s.take(k)) == Parsed::<
            Response<MultiLineView<V>, SingleLineView>,
        >::Incomplete,
{
    lemma_multi_line_steady(rule, s, k);
}

/// What the parser of the response to any command reports on a part of
/// the input is final, unless it is "incomplete".
pub proof fn law_responses_are_settled(s: Seq<u8>, k: int)
    requires
        0 <= k <= s.len(),
    ensures
        settled(spec_status_response(s.take(k)), spec_status_response(s)),
        settled(spec_message_response(s.take(k)), spec_message_response(s)),
        settled(
            spec_single_line(drop_listing_rule(), true, s.take(k)),
            spec_single_line(drop_listing_rule(), true, s),
        ),
        settled(
            spec_single_line(scan_listing_rule(), true, s.take(k)),
            spec_single_line(scan_listing_rule(), true, s),
        ),
        settled(
            spec_single_line(unique_id_listing_rule(), true, s.take(k)),
            spec_single_line(unique_id_listing_rule(), true, s),
        ),
        settled(
            spec_multi_line(scan_listing_rule(), s.take(k)),
            spec_multi_line(scan_listing_rule(), s),
        ),
        settled(
            spec_multi_line(unique_id_listing_rule(), s.take(k)),
            spec_multi_line(unique_id_listing_rule(), s),
        ),
        settled(
            spec_multi_line(language_listing_rule(), s.take(k)),
            spec_multi_line(language_listing_rule(), s),
        ),
        settled(spec_capability_listing(s.take(k)), spec_capability_listing(s)),
{
    lemma_rules_steady();
    lemma_single_line_steady(head_rule(), false, s, k);
    lemma_multi_line_steady(dot_stuffed_rule(), s, k);
    lemma_single_line_steady(drop_listing_rule(), true, s, k);
    lemma_single_line_steady(scan_listing_rule(), true, s, k);
    lemma_single_line_steady(unique_id_listing_rule(), true, s, k);
    lemma_multi_line_steady(scan_listing_rule(), s, k);
    lemma_multi_line_steady(unique_id_listing_rule(), s, k);
    lemma_multi_line_steady(language_listing_rule(), s, k);
    lemma_listing_steady(capability_rule(), true, s, k);
}

} // verus!
