//! Capabilities are read back as they were written.

use crate::parse::command::{spec_keyword_number, spec_keyword_space};
use crate::parse::response::{
    spec_bare_capability, spec_capa_tag, spec_capability, spec_expire, spec_implementation,
    spec_known_capability, spec_login_delay, spec_other_capability, spec_params, spec_policy,
    spec_sasl, spec_user_flag, spec_utf8_capability,
};
use crate::parse::charset::spec_lowercase;
use crate::parse::token::{
    lemma_tag_rejects, or_else, same_byte, spec_byte, spec_led_words, spec_line_ending,
    spec_line_text, spec_tag_no_case, spec_word, tag_differs, then, ByteClass, Parsed,
};
use crate::roundtrip::exact::{lemma_line_text_is_a_line, lemma_run_text_is_of_class};
use crate::roundtrip::{
    all_of, begins_like, crlf, sp, lemma_keyword_space_reads, lemma_line_ending_reads,
    lemma_line_text_reads, lemma_literal, lemma_number_reads, lemma_run_text_reads,
    lemma_signature_rejects, lemma_split, lemma_tag_reads, signature,
};
use crate::text::{decimal, lemma_encode_concat};
use crate::types::response::{
    spec_parameters, spec_policy_text, spec_user_suffix, CapabilityView, ExpirePolicy,
};
use vstd::prelude::*;
use vstd::string::*;
use vstd::utf8::*;

verus! {

/// One or more characters whose bytes are all of the class.
pub open spec fn is_word(text: Seq<char>, class: ByteClass) -> bool {
    text.len() > 0 && all_of(encode_utf8(text), class)
}

/// Every parameter is one or more visible characters.
pub open spec fn are_params(params: Seq<Seq<char>>) -> bool {
    forall|i: int| 0 <= i < params.len() ==> is_word(#[trigger] params[i], ByteClass::Visible)
}

/// The capability line with its line ending, as bytes.
pub open spec fn capability_wire(k: CapabilityView) -> Seq<u8> {
    encode_utf8(k.text() + "\r\n"@)
}

/// The capabilities that are read back as they were written.
///
/// The mechanisms of SASL are each one or more visible characters. The
/// text of IMPLEMENTATION holds no CR and no LF. A capability that is not
/// known has a tag of one or more bytes that are neither a space nor `.`,
/// and parameters of visible characters; and its line is none that the rule
/// of a known capability accepts.
pub open spec fn is_canonical_capability(k: CapabilityView) -> bool {
    match k {
        CapabilityView::Sasl { mechanisms } => are_params(mechanisms),
        CapabilityView::Implementation { text } => all_of(encode_utf8(text), ByteClass::Line),
        CapabilityView::Other { tag, parameters } => {
            &&& is_word(tag, ByteClass::Tag)
            &&& are_params(parameters)
            &&& spec_known_capability(capability_wire(k)) is Invalid
        },
        _ => true,
    }
}

// ----- parameters -----
/// The parameters on the wire: each after one space.
pub open spec fn params_wire(params: Seq<Seq<char>>) -> Seq<u8>
    decreases params.len(),
{
    if params.len() == 0 {
        Seq::empty()
    } else {
        seq![0x20u8] + encode_utf8(params[0]) + params_wire(params.drop_first())
    }
}

proof fn lemma_params_wire_push(params: Seq<Seq<char>>, last: Seq<char>)
    ensures
        params_wire(params.push(last)) == params_wire(params) + seq![0x20u8] + encode_utf8(last),
    decreases params.len(),
{
    let all = params.push(last);
    if params.len() == 0 {
        assert(all.drop_first() =~= Seq::<Seq<char>>::empty());
        assert(params_wire(all.drop_first()) == Seq::<u8>::empty());
        assert(params_wire(all) =~= params_wire(params) + seq![0x20u8] + encode_utf8(last));
    } else {
        lemma_params_wire_push(params.drop_first(), last);
        assert(all.drop_first() =~= params.drop_first().push(last));
        assert(all[0] == params[0]);
        assert(params_wire(all) =~= params_wire(params) + seq![0x20u8] + encode_utf8(last));
    }
}

/// The text of the parameters is encoded as the parameters on the wire.
proof fn lemma_parameters_wire(params: Seq<Seq<char>>)
    ensures
        encode_utf8(spec_parameters(params)) == params_wire(params),
    decreases params.len(),
{
    if params.len() == 0 {
        assert(encode_utf8(spec_parameters(params)) =~= params_wire(params));
    } else {
        assert(encode_utf8(" "@) == seq![0x20u8]) by {
            reveal_strlit(" ");
            lemma_literal(" "@);
            assert(encode_utf8(" "@) =~= seq![0x20u8]);
        }
        let front = params.drop_last();
        let last = params.last();
        assert(params =~= front.push(last));
        lemma_params_wire_push(front, last);
        lemma_parameters_wire(front);
        lemma_encode_concat(spec_parameters(front) + " "@, last);
        lemma_encode_concat(spec_parameters(front), " "@);
    }
}

/// What follows a tag on the wire is no byte of a tag: the space before
/// the first parameter, or the line ending.
proof fn lemma_after_tag(params: Seq<Seq<char>>)
    ensures
        (params_wire(params) + crlf()).len() > 0,
        (params_wire(params) + crlf())[0] == 0x20 || (params_wire(params) + crlf())[0] == 0x0D,
        params.len() > 0 ==> (params_wire(params) + crlf())[0] == 0x20,
{
    let x = params_wire(params) + crlf();
    if params.len() > 0 {
        assert(params_wire(params)[0] == 0x20);
        assert(x[0] == params_wire(params)[0]);
    } else {
        assert(x =~= crlf());
    }
}

/// The parameters are read back, where CR LF follows them.
proof fn lemma_params_read(params: Seq<Seq<char>>)
    requires
        are_params(params),
    ensures
        spec_params(params_wire(params) + crlf()) == Parsed::Done(
            params,
            params_wire(params).len(),
        ),
    decreases params.len(),
{
    let x = params_wire(params) + crlf();
    if params.len() == 0 {
        assert(x =~= crlf());
        assert(params =~= Seq::<Seq<char>>::empty());
    } else {
        let first = params[0];
        let tail = params.drop_first();
        let f = encode_utf8(first);
        let rest = params_wire(tail) + crlf();
        assert(are_params(tail)) by {
            assert forall|i: int| 0 <= i < tail.len() implies is_word(
                #[trigger] tail[i],
                ByteClass::Visible,
            ) by {
                assert(tail[i] == params[i + 1]);
            }
        }
        lemma_params_read(tail);
        assert(x =~= seq![0x20u8] + (f + rest));
        assert(spec_byte(x, 0x20) == Parsed::Done((), 1));
        assert(x.skip(1) =~= f + rest);
        assert(rest.len() > 0 && !ByteClass::Visible.spec_holds(rest[0])) by {
            if tail.len() > 0 {
                assert(rest[0] == 0x20);
            } else {
                assert(rest =~= crlf());
            }
        }
        assert(is_word(params[0], ByteClass::Visible));
        lemma_run_text_reads(first, rest, ByteClass::Visible);
        let n = 1 + f.len();
        assert(x.skip(n as int) =~= rest) by {
            lemma_split(f, rest);
        }
        assert(seq![first] + tail =~= params);
        assert(params_wire(params).len() == n + params_wire(tail).len());
    }
}

// ----- the keywords of the capabilities -----
proof fn lemma_capability_signatures()
    ensures
        signature(encode_utf8("TOP"@)) == (0x74u8, 0x6Fu8, 0x70u8),
        signature(encode_utf8("USER"@)) == (0x75u8, 0x73u8, 0x65u8),
        signature(encode_utf8("SASL"@)) == (0x73u8, 0x61u8, 0x73u8),
        signature(encode_utf8("RESP-CODES"@)) == (0x72u8, 0x65u8, 0x73u8),
        signature(encode_utf8("LOGIN-DELAY"@)) == (0x6Cu8, 0x6Fu8, 0x67u8),
        signature(encode_utf8("PIPELINING"@)) == (0x70u8, 0x69u8, 0x70u8),
        signature(encode_utf8("EXPIRE"@)) == (0x65u8, 0x78u8, 0x70u8),
        signature(encode_utf8("UIDL"@)) == (0x75u8, 0x69u8, 0x64u8),
        signature(encode_utf8("IMPLEMENTATION"@)) == (0x69u8, 0x6Du8, 0x70u8),
        signature(encode_utf8("STLS"@)) == (0x73u8, 0x74u8, 0x6Cu8),
        signature(encode_utf8("AUTH-RESP-CODE"@)) == (0x61u8, 0x75u8, 0x74u8),
        signature(encode_utf8("LANG"@)) == (0x6Cu8, 0x61u8, 0x6Eu8),
        signature(encode_utf8("UTF8"@)) == (0x75u8, 0x74u8, 0x66u8),
        encode_utf8("TOP"@).len() == 3,
        encode_utf8("USER"@).len() == 4,
        encode_utf8("SASL"@).len() == 4,
        encode_utf8("RESP-CODES"@).len() == 10,
        encode_utf8("LOGIN-DELAY"@).len() == 11,
        encode_utf8("PIPELINING"@).len() == 10,
        encode_utf8("EXPIRE"@).len() == 6,
        encode_utf8("UIDL"@).len() == 4,
        encode_utf8("IMPLEMENTATION"@).len() == 14,
        encode_utf8("STLS"@).len() == 4,
        encode_utf8("AUTH-RESP-CODE"@).len() == 14,
        encode_utf8("LANG"@).len() == 4,
        encode_utf8("UTF8"@).len() == 4,
{
    reveal_strlit("TOP");
    reveal_strlit("USER");
    reveal_strlit("SASL");
    reveal_strlit("RESP-CODES");
    reveal_strlit("LOGIN-DELAY");
    reveal_strlit("PIPELINING");
    reveal_strlit("EXPIRE");
    reveal_strlit("UIDL");
    reveal_strlit("IMPLEMENTATION");
    reveal_strlit("STLS");
    reveal_strlit("AUTH-RESP-CODE");
    reveal_strlit("LANG");
    reveal_strlit("UTF8");
    lemma_literal("TOP"@);
    lemma_literal("USER"@);
    lemma_literal("SASL"@);
    lemma_literal("RESP-CODES"@);
    lemma_literal("LOGIN-DELAY"@);
    lemma_literal("PIPELINING"@);
    lemma_literal("EXPIRE"@);
    lemma_literal("UIDL"@);
    lemma_literal("IMPLEMENTATION"@);
    lemma_literal("STLS"@);
    lemma_literal("AUTH-RESP-CODE"@);
    lemma_literal("LANG"@);
    lemma_literal("UTF8"@);
}

/// An input that begins like another keyword is refused by the rule of
/// that keyword, whatever the rest of the rule is.
proof fn lemma_rules_reject(s: Seq<u8>, keyword: Seq<char>)
    requires
        s.len() >= 3,
        encode_utf8(keyword).len() >= 3,
        signature(s) != signature(encode_utf8(keyword)),
    ensures
        spec_tag_no_case(s, keyword) == Parsed::<()>::Invalid,
        spec_keyword_space(s, keyword) == Parsed::<()>::Invalid,
        spec_keyword_number(s, keyword) == Parsed::<u32>::Invalid,
{
    lemma_signature_rejects(s, keyword);
}

/// An input that begins like the keyword of a known capability is read by
/// the rule of that capability, or refused where that rule refuses it.
pub proof fn lemma_capability_by_keyword(s: Seq<u8>, keyword: Seq<char>)
    requires
        begins_like(s, keyword),
        keyword == "TOP"@ || keyword == "USER"@ || keyword == "SASL"@ || keyword == "RESP-CODES"@
            || keyword == "LOGIN-DELAY"@ || keyword == "PIPELINING"@ || keyword == "EXPIRE"@
            || keyword == "UIDL"@ || keyword == "IMPLEMENTATION"@ || keyword == "STLS"@
            || keyword == "AUTH-RESP-CODE"@ || keyword == "LANG"@ || keyword == "UTF8"@,
    ensures
        keyword == "TOP"@ ==> spec_known_capability(s) == spec_bare_capability(
            s,
            "TOP"@,
            CapabilityView::Top,
        ),
        keyword == "USER"@ ==> spec_known_capability(s) == spec_bare_capability(
            s,
            "USER"@,
            CapabilityView::User,
        ),
        keyword == "SASL"@ ==> spec_known_capability(s) == spec_sasl(s),
        keyword == "RESP-CODES"@ ==> spec_known_capability(s) == spec_bare_capability(
            s,
            "RESP-CODES"@,
            CapabilityView::RespCodes,
        ),
        keyword == "LOGIN-DELAY"@ ==> spec_known_capability(s) == spec_login_delay(s),
        keyword == "PIPELINING"@ ==> spec_known_capability(s) == spec_bare_capability(
            s,
            "PIPELINING"@,
            CapabilityView::Pipelining,
        ),
        keyword == "EXPIRE"@ ==> spec_known_capability(s) == spec_expire(s),
        keyword == "UIDL"@ ==> spec_known_capability(s) == spec_bare_capability(
            s,
            "UIDL"@,
            CapabilityView::Uidl,
        ),
        keyword == "IMPLEMENTATION"@ ==> spec_known_capability(s) == spec_implementation(s),
        keyword == "STLS"@ ==> spec_known_capability(s) == spec_bare_capability(
            s,
            "STLS"@,
            CapabilityView::Stls,
        ),
        keyword == "AUTH-RESP-CODE"@ ==> spec_known_capability(s) == spec_bare_capability(
            s,
            "AUTH-RESP-CODE"@,
            CapabilityView::AuthRespCode,
        ),
        keyword == "LANG"@ ==> spec_known_capability(s) == spec_bare_capability(
            s,
            "LANG"@,
            CapabilityView::Lang,
        ),
        keyword == "UTF8"@ ==> spec_known_capability(s) == spec_utf8_capability(s),
{
    reveal(spec_known_capability);
    lemma_capability_signatures();
    if keyword != "TOP"@ {
        lemma_rules_reject(s, "TOP"@);
    }
    if keyword != "USER"@ {
        lemma_rules_reject(s, "USER"@);
    }
    if keyword != "SASL"@ {
        lemma_rules_reject(s, "SASL"@);
    }
    if keyword != "RESP-CODES"@ {
        lemma_rules_reject(s, "RESP-CODES"@);
    }
    if keyword != "LOGIN-DELAY"@ {
        lemma_rules_reject(s, "LOGIN-DELAY"@);
    }
    if keyword != "PIPELINING"@ {
        lemma_rules_reject(s, "PIPELINING"@);
    }
    if keyword != "EXPIRE"@ {
        lemma_rules_reject(s, "EXPIRE"@);
    }
    if keyword != "UIDL"@ {
        lemma_rules_reject(s, "UIDL"@);
    }
    if keyword != "IMPLEMENTATION"@ {
        lemma_rules_reject(s, "IMPLEMENTATION"@);
    }
    if keyword != "STLS"@ {
        lemma_rules_reject(s, "STLS"@);
    }
    if keyword != "AUTH-RESP-CODE"@ {
        lemma_rules_reject(s, "AUTH-RESP-CODE"@);
    }
    if keyword != "LANG"@ {
        lemma_rules_reject(s, "LANG"@);
    }
}

// ----- the capabilities, one by one -----
/// The literals of the capability lines.
proof fn lemma_capability_literals()
    ensures
        "LOGIN-DELAY "@ == "LOGIN-DELAY"@ + " "@,
        "EXPIRE "@ == "EXPIRE"@ + " "@,
        "IMPLEMENTATION "@ == "IMPLEMENTATION"@ + " "@,
        encode_utf8(" "@) == sp(),
        encode_utf8("\r\n"@) == crlf(),
        encode_utf8(" USER"@) == seq![0x20u8, 0x55u8, 0x53u8, 0x45u8, 0x52u8],
        encode_utf8("NEVER"@) == seq![0x4Eu8, 0x45u8, 0x56u8, 0x45u8, 0x52u8],
{
    reveal_strlit("SASL");
    reveal_strlit("LOGIN-DELAY");
    reveal_strlit("EXPIRE");
    reveal_strlit("IMPLEMENTATION");
    reveal_strlit("LOGIN-DELAY ");
    reveal_strlit("EXPIRE ");
    reveal_strlit("IMPLEMENTATION ");
    reveal_strlit(" ");
    reveal_strlit("\r\n");
    reveal_strlit(" USER");
    reveal_strlit("NEVER");
    assert("LOGIN-DELAY "@ =~= "LOGIN-DELAY"@ + " "@);
    assert("EXPIRE "@ =~= "EXPIRE"@ + " "@);
    assert("IMPLEMENTATION "@ =~= "IMPLEMENTATION"@ + " "@);
    lemma_literal(" "@);
    lemma_literal("\r\n"@);
    lemma_literal(" USER"@);
    lemma_literal("NEVER"@);
    assert(encode_utf8(" "@) =~= sp());
    assert(encode_utf8("\r\n"@) =~= crlf());
    assert(encode_utf8(" USER"@) =~= seq![0x20u8, 0x55u8, 0x53u8, 0x45u8, 0x52u8]);
    assert(encode_utf8("NEVER"@) =~= seq![0x4Eu8, 0x45u8, 0x56u8, 0x45u8, 0x52u8]);
}

/// A line that begins with the bytes of a keyword begins like it.
proof fn lemma_begins_with(s: Seq<u8>, keyword: Seq<char>, rest: Seq<u8>)
    requires
        keyword == "TOP"@ || keyword == "USER"@ || keyword == "SASL"@ || keyword == "RESP-CODES"@
            || keyword == "LOGIN-DELAY"@ || keyword == "PIPELINING"@ || keyword == "EXPIRE"@
            || keyword == "UIDL"@ || keyword == "IMPLEMENTATION"@ || keyword == "STLS"@
            || keyword == "AUTH-RESP-CODE"@ || keyword == "LANG"@ || keyword == "UTF8"@,
        s =~= encode_utf8(keyword) + rest,
    ensures
        begins_like(s, keyword),
{
    let k = encode_utf8(keyword);
    lemma_capability_signatures();
    assert(s[0] == k[0]);
    assert(s[1] == k[1]);
    assert(s[2] == k[2]);
}

/// A capability that is its tag alone is read back.
proof fn lemma_bare_reads(keyword: Seq<char>, value: CapabilityView)
    ensures
        spec_bare_capability(encode_utf8(keyword + "\r\n"@), keyword, value) == Parsed::Done(
            value,
            encode_utf8(keyword + "\r\n"@).len(),
        ),
        encode_utf8(keyword + "\r\n"@) == encode_utf8(keyword) + crlf(),
{
    let k = encode_utf8(keyword);
    let s = encode_utf8(keyword + "\r\n"@);
    assert(s == k + crlf()) by {
        lemma_capability_literals();
        lemma_encode_concat(keyword, "\r\n"@);
    }
    lemma_tag_reads(keyword, crlf(), true);
    lemma_split(k, crlf());
    assert(crlf() + Seq::<u8>::empty() =~= crlf());
    lemma_line_ending_reads(Seq::empty());
}

/// The flag ` USER`, or its absence, is read back before CR LF.
proof fn lemma_user_flag_reads(per_user: bool)
    ensures
        ({
            let x = encode_utf8(spec_user_suffix(per_user)) + crlf();
            &&& spec_user_flag(x) == Parsed::Done(per_user, encode_utf8(
                spec_user_suffix(per_user),
            ).len())
            &&& x.skip(encode_utf8(spec_user_suffix(per_user)).len() as int) == crlf()
            &&& x.len() > 0
            &&& !ByteClass::Digit.spec_holds(x[0])
            &&& !ByteClass::Line.spec_holds(x[0]) || x[0] == 0x20
        }),
{
    lemma_capability_literals();
    let f = encode_utf8(spec_user_suffix(per_user));
    let x = f + crlf();
    lemma_split(f, crlf());
    if per_user {
        lemma_tag_reads(" USER"@, crlf(), true);
    } else {
        assert(f =~= Seq::<u8>::empty());
        assert(x =~= crlf());
        lemma_tag_rejects(x, " USER"@, true, 0);
    }
}

/// The flag and CR LF that end a capability line.
pub open spec fn flag_and_end(per_user: bool) -> Seq<u8> {
    encode_utf8(spec_user_suffix(per_user)) + crlf()
}

/// The flag is read back, and the line ending after it.
proof fn lemma_flag_and_end_reads(per_user: bool)
    ensures
        ({
            let x = flag_and_end(per_user);
            let flag = spec_user_flag(x);
            &&& flag == Parsed::Done(per_user, (x.len() - 2) as nat)
            &&& x.len() >= 2
            &&& spec_line_ending(x.skip(flag.used() as int)) == Parsed::Done((), 2)
            &&& !ByteClass::Digit.spec_holds(x[0])
        }),
{
    lemma_user_flag_reads(per_user);
    assert(spec_line_ending(crlf()) == Parsed::Done((), 2));
}

/// The wire form of LOGIN-DELAY.
proof fn lemma_login_delay_wire(minimum_seconds: u32, per_user: bool)
    ensures
        capability_wire(CapabilityView::LoginDelay { minimum_seconds, per_user }) == encode_utf8(
            "LOGIN-DELAY"@,
        ) + sp() + encode_utf8(decimal(minimum_seconds as nat)) + flag_and_end(per_user),
{
    let c = CapabilityView::LoginDelay { minimum_seconds, per_user };
    lemma_capability_literals();
    assert(c.text() == "LOGIN-DELAY"@ + " "@ + decimal(minimum_seconds as nat) + spec_user_suffix(
        per_user,
    ));
    lemma_encode_concat(c.text(), "\r\n"@);
    lemma_encode_concat(
        "LOGIN-DELAY"@ + " "@ + decimal(minimum_seconds as nat),
        spec_user_suffix(per_user),
    );
    lemma_encode_concat("LOGIN-DELAY"@ + " "@, decimal(minimum_seconds as nat));
    lemma_encode_concat("LOGIN-DELAY"@, " "@);
    assert(capability_wire(c) =~= encode_utf8("LOGIN-DELAY"@) + sp() + encode_utf8(
        decimal(minimum_seconds as nat),
    ) + flag_and_end(per_user));
}

/// A line of LOGIN-DELAY is read by its rule.
proof fn lemma_login_delay_line_reads(minimum_seconds: u32, per_user: bool, s: Seq<u8>)
    requires
        s == encode_utf8("LOGIN-DELAY"@) + sp() + encode_utf8(decimal(minimum_seconds as nat))
            + flag_and_end(per_user),
    ensures
        spec_login_delay(s) == Parsed::Done(
            CapabilityView::LoginDelay { minimum_seconds, per_user },
            s.len(),
        ),
{
    let rest = flag_and_end(per_user);
    lemma_flag_and_end_reads(per_user);
    crate::roundtrip::lemma_keyword_number_reads("LOGIN-DELAY"@, minimum_seconds, rest);
}

/// The capability LOGIN-DELAY is read back.
proof fn lemma_login_delay_reads(minimum_seconds: u32, per_user: bool)
    ensures
        ({
            let k = CapabilityView::LoginDelay { minimum_seconds, per_user };
            &&& spec_login_delay(capability_wire(k)) == Parsed::Done(k, capability_wire(k).len())
            &&& begins_like(capability_wire(k), "LOGIN-DELAY"@)
        }),
{
    let s = capability_wire(CapabilityView::LoginDelay { minimum_seconds, per_user });
    lemma_login_delay_wire(minimum_seconds, per_user);
    lemma_login_delay_line_reads(minimum_seconds, per_user, s);
    lemma_begins_with(
        s,
        "LOGIN-DELAY"@,
        sp() + encode_utf8(decimal(minimum_seconds as nat)) + flag_and_end(per_user),
    );
}

/// The policy of EXPIRE is read back before a space or a line ending.
proof fn lemma_policy_reads(policy: ExpirePolicy, rest: Seq<u8>)
    requires
        rest.len() > 0,
        !ByteClass::Digit.spec_holds(rest[0]),
    ensures
        spec_policy(encode_utf8(spec_policy_text(policy)) + rest) == Parsed::Done(
            policy,
            encode_utf8(spec_policy_text(policy)).len(),
        ),
{
    let p = encode_utf8(spec_policy_text(policy));
    let x = p + rest;
    match policy {
        ExpirePolicy::Never => {
            lemma_capability_literals();
            assert(x[0] == 0x4E);
            crate::parse::token::lemma_run_end_is(x, ByteClass::Digit, 0, 0);
            lemma_tag_reads("NEVER"@, rest, true);
        },
        ExpirePolicy::MinimumDays(days) => {
            lemma_number_reads(days, rest);
        },
    }
}

/// The wire form of EXPIRE.
proof fn lemma_expire_wire(policy: ExpirePolicy, per_user: bool)
    ensures
        capability_wire(CapabilityView::Expire { policy, per_user }) == encode_utf8("EXPIRE"@)
            + sp() + (encode_utf8(spec_policy_text(policy)) + flag_and_end(per_user)),
{
    let c = CapabilityView::Expire { policy, per_user };
    lemma_capability_literals();
    assert(c.text() == "EXPIRE"@ + " "@ + spec_policy_text(policy) + spec_user_suffix(per_user));
    lemma_encode_concat(c.text(), "\r\n"@);
    lemma_encode_concat("EXPIRE"@ + " "@ + spec_policy_text(policy), spec_user_suffix(per_user));
    lemma_encode_concat("EXPIRE"@ + " "@, spec_policy_text(policy));
    lemma_encode_concat("EXPIRE"@, " "@);
    assert(capability_wire(c) =~= encode_utf8("EXPIRE"@) + sp() + (encode_utf8(
        spec_policy_text(policy),
    ) + flag_and_end(per_user)));
}

/// What follows the keyword and the space of EXPIRE is read back.
proof fn lemma_expire_operands_read(policy: ExpirePolicy, per_user: bool)
    ensures
        ({
            let p = encode_utf8(spec_policy_text(policy));
            let x = p + flag_and_end(per_user);
            let read = spec_policy(x);
            let flag = spec_user_flag(x.skip(read.used() as int));
            let end = spec_line_ending(x.skip((read.used() + flag.used()) as int));
            &&& read == Parsed::Done(policy, p.len())
            &&& flag matches Parsed::Done(value, _)
            &&& value == per_user
            &&& end == Parsed::Done((), 2)
            &&& x.len() == read.used() + flag.used() + 2
        }),
{
    let p = encode_utf8(spec_policy_text(policy));
    let rest = flag_and_end(per_user);
    let x = p + rest;
    lemma_flag_and_end_reads(per_user);
    lemma_policy_reads(policy, rest);
    lemma_split(p, rest);
    let flag = spec_user_flag(rest);
    assert(x.skip((p.len() + flag.used()) as int) =~= rest.skip(flag.used() as int));
}

/// A line of EXPIRE is read by its rule.
proof fn lemma_expire_line_reads(policy: ExpirePolicy, per_user: bool, s: Seq<u8>)
    requires
        s == encode_utf8("EXPIRE"@) + sp() + (encode_utf8(spec_policy_text(policy))
            + flag_and_end(per_user)),
    ensures
        spec_expire(s) == Parsed::Done(CapabilityView::Expire { policy, per_user }, s.len()),
{
    let x = encode_utf8(spec_policy_text(policy)) + flag_and_end(per_user);
    lemma_expire_operands_read(policy, per_user);
    lemma_keyword_space_reads("EXPIRE"@, x);
    let head = spec_keyword_space(s, "EXPIRE"@);
    let read = spec_policy(x);
    let flag = spec_user_flag(x.skip(read.used() as int));
    assert(s.skip(head.used() as int) == x);
    assert(s.skip((head.used() + read.used()) as int) =~= x.skip(read.used() as int));
    assert(s.skip((head.used() + read.used() + flag.used()) as int) =~= x.skip(
        (read.used() + flag.used()) as int,
    ));
    assert(s.len() == head.used() + x.len());
}

/// The capability EXPIRE is read back.
proof fn lemma_expire_reads(policy: ExpirePolicy, per_user: bool)
    ensures
        ({
            let k = CapabilityView::Expire { policy, per_user };
            &&& spec_expire(capability_wire(k)) == Parsed::Done(k, capability_wire(k).len())
            &&& begins_like(capability_wire(k), "EXPIRE"@)
        }),
{
    let s = capability_wire(CapabilityView::Expire { policy, per_user });
    lemma_expire_wire(policy, per_user);
    lemma_expire_line_reads(policy, per_user, s);
    lemma_begins_with(
        s,
        "EXPIRE"@,
        sp() + (encode_utf8(spec_policy_text(policy)) + flag_and_end(per_user)),
    );
}

/// The wire form of IMPLEMENTATION.
proof fn lemma_implementation_wire(text: Seq<char>)
    ensures
        capability_wire(CapabilityView::Implementation { text }) == encode_utf8(
            "IMPLEMENTATION"@,
        ) + sp() + (encode_utf8(text) + crlf()),
{
    let c = CapabilityView::Implementation { text };
    lemma_capability_literals();
    assert(c.text() == "IMPLEMENTATION"@ + " "@ + text);
    lemma_encode_concat(c.text(), "\r\n"@);
    lemma_encode_concat("IMPLEMENTATION"@ + " "@, text);
    lemma_encode_concat("IMPLEMENTATION"@, " "@);
    assert(capability_wire(c) =~= encode_utf8("IMPLEMENTATION"@) + sp() + (encode_utf8(text)
        + crlf()));
}

/// A line of IMPLEMENTATION is read by its rule.
proof fn lemma_implementation_line_reads(text: Seq<char>, s: Seq<u8>)
    requires
        all_of(encode_utf8(text), ByteClass::Line),
        s == encode_utf8("IMPLEMENTATION"@) + sp() + (encode_utf8(text) + crlf()),
    ensures
        spec_implementation(s) == Parsed::Done(CapabilityView::Implementation { text }, s.len()),
{
    let t = encode_utf8(text);
    lemma_keyword_space_reads("IMPLEMENTATION"@, t + crlf());
    let head = spec_keyword_space(s, "IMPLEMENTATION"@);
    assert(s.skip(head.used() as int) == t + crlf());
    assert(spec_line_text(t + crlf()) == Parsed::Done(text, t.len())) by {
        assert(t + crlf() + Seq::<u8>::empty() =~= t + crlf());
        lemma_line_text_reads(text, Seq::empty());
    }
    assert(s.skip((head.used() + t.len()) as int) == crlf()) by {
        lemma_split(t, crlf());
        assert(s.skip((head.used() + t.len()) as int) =~= (t + crlf()).skip(t.len() as int));
    }
    assert(spec_line_ending(crlf()) == Parsed::Done((), 2));
    assert(s.len() == head.used() + t.len() + 2);
}

/// The capability IMPLEMENTATION is read back.
proof fn lemma_implementation_reads(text: Seq<char>)
    requires
        all_of(encode_utf8(text), ByteClass::Line),
    ensures
        ({
            let k = CapabilityView::Implementation { text };
            &&& spec_implementation(capability_wire(k)) == Parsed::Done(
                k,
                capability_wire(k).len(),
            )
            &&& begins_like(capability_wire(k), "IMPLEMENTATION"@)
        }),
{
    let s = capability_wire(CapabilityView::Implementation { text });
    lemma_implementation_wire(text);
    lemma_implementation_line_reads(text, s);
    lemma_begins_with(s, "IMPLEMENTATION"@, sp() + (encode_utf8(text) + crlf()));
}

/// The wire form of UTF8.
proof fn lemma_utf8_wire(in_credentials: bool)
    ensures
        capability_wire(CapabilityView::Utf8 { in_credentials }) == encode_utf8("UTF8"@)
            + flag_and_end(in_credentials),
{
    let c = CapabilityView::Utf8 { in_credentials };
    lemma_capability_literals();
    lemma_encode_concat(c.text(), "\r\n"@);
    lemma_encode_concat("UTF8"@, spec_user_suffix(in_credentials));
    assert(capability_wire(c) =~= encode_utf8("UTF8"@) + flag_and_end(in_credentials));
}

/// A line of UTF8 is read by its rule.
proof fn lemma_utf8_line_reads(in_credentials: bool, s: Seq<u8>)
    requires
        s == encode_utf8("UTF8"@) + flag_and_end(in_credentials),
    ensures
        spec_utf8_capability(s) == Parsed::Done(CapabilityView::Utf8 { in_credentials }, s.len()),
{
    let k = encode_utf8("UTF8"@);
    let rest = flag_and_end(in_credentials);
    lemma_flag_and_end_reads(in_credentials);
    lemma_tag_reads("UTF8"@, rest, true);
    lemma_split(k, rest);
    let flag = spec_user_flag(rest);
    assert(s.skip((k.len() + flag.used()) as int) =~= rest.skip(flag.used() as int));
}

/// The capability UTF8 is read back.
proof fn lemma_utf8_reads(in_credentials: bool)
    ensures
        ({
            let k = CapabilityView::Utf8 { in_credentials };
            &&& spec_utf8_capability(capability_wire(k)) == Parsed::Done(
                k,
                capability_wire(k).len(),
            )
            &&& begins_like(capability_wire(k), "UTF8"@)
        }),
{
    let s = capability_wire(CapabilityView::Utf8 { in_credentials });
    lemma_utf8_wire(in_credentials);
    lemma_utf8_line_reads(in_credentials, s);
    lemma_begins_with(s, "UTF8"@, flag_and_end(in_credentials));
}

/// The wire form of SASL.
proof fn lemma_sasl_wire(mechanisms: Seq<Seq<char>>)
    ensures
        capability_wire(CapabilityView::Sasl { mechanisms }) == encode_utf8("SASL"@) + (
        params_wire(mechanisms) + crlf()),
{
    let c = CapabilityView::Sasl { mechanisms };
    lemma_capability_literals();
    lemma_encode_concat(c.text(), "\r\n"@);
    lemma_encode_concat("SASL"@, spec_parameters(mechanisms));
    lemma_parameters_wire(mechanisms);
    assert(capability_wire(c) =~= encode_utf8("SASL"@) + (params_wire(mechanisms) + crlf()));
}

/// A line of SASL is read by its rule.
proof fn lemma_sasl_line_reads(mechanisms: Seq<Seq<char>>, s: Seq<u8>)
    requires
        are_params(mechanisms),
        s == encode_utf8("SASL"@) + (params_wire(mechanisms) + crlf()),
    ensures
        spec_sasl(s) == Parsed::Done(CapabilityView::Sasl { mechanisms }, s.len()),
{
    let k = encode_utf8("SASL"@);
    let w = params_wire(mechanisms);
    let rest = w + crlf();
    lemma_tag_reads("SASL"@, rest, true);
    lemma_split(k, rest);
    assert(spec_params(rest) == Parsed::Done(mechanisms, w.len())) by {
        lemma_params_read(mechanisms);
    }
    assert(s.skip((k.len() + w.len()) as int) == crlf()) by {
        lemma_split(w, crlf());
        assert(s.skip((k.len() + w.len()) as int) =~= rest.skip(w.len() as int));
    }
    assert(spec_line_ending(crlf()) == Parsed::Done((), 2));
    assert(s.len() == k.len() + w.len() + 2);
}

/// The capability SASL is read back.
proof fn lemma_sasl_reads(mechanisms: Seq<Seq<char>>)
    requires
        are_params(mechanisms),
    ensures
        ({
            let k = CapabilityView::Sasl { mechanisms };
            &&& spec_sasl(capability_wire(k)) == Parsed::Done(k, capability_wire(k).len())
            &&& begins_like(capability_wire(k), "SASL"@)
        }),
{
    let s = capability_wire(CapabilityView::Sasl { mechanisms });
    lemma_sasl_wire(mechanisms);
    lemma_sasl_line_reads(mechanisms, s);
    lemma_begins_with(s, "SASL"@, params_wire(mechanisms) + crlf());
}

/// The wire form of a capability that is not known.
proof fn lemma_other_wire(tag: Seq<char>, parameters: Seq<Seq<char>>)
    ensures
        capability_wire(CapabilityView::Other { tag, parameters }) == encode_utf8(tag) + (
        params_wire(parameters) + crlf()),
{
    let c = CapabilityView::Other { tag, parameters };
    lemma_capability_literals();
    lemma_encode_concat(c.text(), "\r\n"@);
    lemma_encode_concat(tag, spec_parameters(parameters));
    lemma_parameters_wire(parameters);
    assert(capability_wire(c) =~= encode_utf8(tag) + (params_wire(parameters) + crlf()));
}

/// A line of a tag and parameters is read by the last rule.
proof fn lemma_other_line_reads(tag: Seq<char>, parameters: Seq<Seq<char>>, s: Seq<u8>)
    requires
        is_word(tag, ByteClass::Tag),
        are_params(parameters),
        s == encode_utf8(tag) + (params_wire(parameters) + crlf()),
    ensures
        spec_other_capability(s) == Parsed::Done(
            CapabilityView::Other { tag, parameters },
            s.len(),
        ),
{
    let t = encode_utf8(tag);
    let w = params_wire(parameters);
    let rest = w + crlf();
    lemma_after_tag(parameters);
    assert(spec_capa_tag(s) == Parsed::Done(tag, t.len())) by {
        lemma_run_text_reads(tag, rest, ByteClass::Tag);
    }
    assert(s.skip(t.len() as int) == rest) by {
        lemma_split(t, rest);
    }
    assert(spec_params(rest) == Parsed::Done(parameters, w.len())) by {
        lemma_params_read(parameters);
    }
    assert(s.skip((t.len() + w.len()) as int) == crlf()) by {
        lemma_split(w, crlf());
        assert(s.skip((t.len() + w.len()) as int) =~= rest.skip(w.len() as int));
    }
    assert(spec_line_ending(crlf()) == Parsed::Done((), 2));
    assert(s.len() == t.len() + w.len() + 2);
}

/// A capability that is not known is read back by the last rule.
proof fn lemma_other_reads(tag: Seq<char>, parameters: Seq<Seq<char>>)
    requires
        is_word(tag, ByteClass::Tag),
        are_params(parameters),
    ensures
        ({
            let k = CapabilityView::Other { tag, parameters };
            spec_other_capability(capability_wire(k)) == Parsed::Done(k, capability_wire(k).len())
        }),
{
    lemma_other_wire(tag, parameters);
    lemma_other_line_reads(
        tag,
        parameters,
        capability_wire(CapabilityView::Other { tag, parameters }),
    );
}

/// The capabilities that are their tag alone are read back.
proof fn lemma_bare_capabilities(k: CapabilityView)
    requires
        k is Top || k is User || k is RespCodes || k is Pipelining || k is Uidl || k is Stls
            || k is AuthRespCode || k is Lang,
    ensures
        spec_capability(capability_wire(k)) == Parsed::Done(k, capability_wire(k).len()),
{
    let s = capability_wire(k);
    let keyword = k.text();
    lemma_bare_reads(keyword, k);
    lemma_begins_with(s, keyword, crlf());
    lemma_capability_by_keyword(s, keyword);
}

// ----- tags that are not known -----
/// The bytes are the keyword, in any mix of upper and lower case.
pub open spec fn is_keyword(bytes: Seq<u8>, keyword: Seq<char>) -> bool {
    bytes.len() == encode_utf8(keyword).len() && !tag_differs(bytes, encode_utf8(keyword), true)
}

/// No byte of the keyword is a space or CR.
pub open spec fn is_solid(keyword: Seq<char>) -> bool {
    forall|i: int|
        0 <= i < encode_utf8(keyword).len() ==> {
            let byte = spec_lowercase(#[trigger] encode_utf8(keyword)[i]);
            byte != 0x20 && byte != 0x0D
        }
}

/// A line that begins with a tag, and a space or CR after it: the bytes
/// of the tag are neither a space nor the beginning of a line ending.
pub open spec fn is_tagged_line(s: Seq<u8>, tag_len: nat) -> bool {
    &&& tag_len < s.len()
    &&& s[tag_len as int] == 0x20 || s[tag_len as int] == 0x0D
    &&& forall|i: int| 0 <= i < tag_len ==> ByteClass::Tag.spec_holds(#[trigger] s[i])
}

/// On a tagged line a keyword is refused, or it is read within the tag;
/// and where it is the whole tag, the tag is that keyword.
proof fn lemma_keyword_on_tagged_line(s: Seq<u8>, tag_len: nat, keyword: Seq<char>)
    requires
        is_tagged_line(s, tag_len),
        is_solid(keyword),
    ensures
        spec_tag_no_case(s, keyword) is Invalid || {
            &&& spec_tag_no_case(s, keyword) == Parsed::Done((), encode_utf8(keyword).len())
            &&& encode_utf8(keyword).len() <= tag_len
            &&& encode_utf8(keyword).len() == tag_len ==> is_keyword(
                s.take(tag_len as int),
                keyword,
            )
        },
{
    let k = encode_utf8(keyword);
    if !tag_differs(s, k, true) {
        if k.len() > tag_len {
            assert(!same_byte(s[tag_len as int], k[tag_len as int], true));
        }
        if k.len() == tag_len {
            let t = s.take(tag_len as int);
            if tag_differs(t, k, true) {
                let i = choose|i: int|
                    0 <= i < t.len() && i < k.len() && !same_byte(#[trigger] t[i], k[i], true);
                assert(t[i] == s[i]);
            }
        }
    }
}

/// A capability without parameters is refused on a tagged line, unless
/// the tag is its keyword and the line ends after it.
proof fn lemma_bare_refused(s: Seq<u8>, tag_len: nat, keyword: Seq<char>, value: CapabilityView)
    requires
        is_tagged_line(s, tag_len),
        is_solid(keyword),
        s[tag_len as int] == 0x20 || !is_keyword(s.take(tag_len as int), keyword),
    ensures
        spec_bare_capability(s, keyword, value) is Invalid,
{
    lemma_keyword_on_tagged_line(s, tag_len, keyword);
    let n = encode_utf8(keyword).len();
    if spec_tag_no_case(s, keyword) is Done {
        assert(s.skip(n as int)[0] == s[n as int]);
    }
}

/// The keywords of the known capabilities hold no space and no CR.
proof fn lemma_keywords_are_solid()
    ensures
        is_solid("TOP"@),
        is_solid("USER"@),
        is_solid("SASL"@),
        is_solid("RESP-CODES"@),
        is_solid("LOGIN-DELAY"@),
        is_solid("PIPELINING"@),
        is_solid("EXPIRE"@),
        is_solid("UIDL"@),
        is_solid("IMPLEMENTATION"@),
        is_solid("STLS"@),
        is_solid("AUTH-RESP-CODE"@),
        is_solid("LANG"@),
        is_solid("UTF8"@),
{
    reveal_strlit("TOP");
    reveal_strlit("USER");
    reveal_strlit("SASL");
    reveal_strlit("RESP-CODES");
    reveal_strlit("LOGIN-DELAY");
    reveal_strlit("PIPELINING");
    reveal_strlit("EXPIRE");
    reveal_strlit("UIDL");
    reveal_strlit("IMPLEMENTATION");
    reveal_strlit("STLS");
    reveal_strlit("AUTH-RESP-CODE");
    reveal_strlit("LANG");
    reveal_strlit("UTF8");
    lemma_literal("TOP"@);
    lemma_literal("USER"@);
    lemma_literal("SASL"@);
    lemma_literal("RESP-CODES"@);
    lemma_literal("LOGIN-DELAY"@);
    lemma_literal("PIPELINING"@);
    lemma_literal("EXPIRE"@);
    lemma_literal("UIDL"@);
    lemma_literal("IMPLEMENTATION"@);
    lemma_literal("STLS"@);
    lemma_literal("AUTH-RESP-CODE"@);
    lemma_literal("LANG"@);
    lemma_literal("UTF8"@);
}

/// On a tagged line whose tag is not the keyword, the keyword is refused,
/// or it is read within the tag and a byte of the tag follows it.
proof fn lemma_other_keyword_on_tagged_line(s: Seq<u8>, tag_len: nat, keyword: Seq<char>)
    requires
        is_tagged_line(s, tag_len),
        is_solid(keyword),
        !is_keyword(s.take(tag_len as int), keyword),
    ensures
        spec_tag_no_case(s, keyword) is Invalid || {
            let rest = s.skip(encode_utf8(keyword).len() as int);
            &&& spec_tag_no_case(s, keyword) == Parsed::Done((), encode_utf8(keyword).len())
            &&& rest.len() > 0
            &&& ByteClass::Tag.spec_holds(rest[0])
        },
{
    lemma_keyword_on_tagged_line(s, tag_len, keyword);
    let n = encode_utf8(keyword).len();
    if spec_tag_no_case(s, keyword) is Done {
        assert(s.skip(n as int)[0] == s[n as int]);
    }
}

proof fn lemma_sasl_refused(s: Seq<u8>, tag_len: nat)
    requires
        is_tagged_line(s, tag_len),
        is_solid("SASL"@),
        !is_keyword(s.take(tag_len as int), "SASL"@),
    ensures
        spec_sasl(s) is Invalid,
{
    lemma_other_keyword_on_tagged_line(s, tag_len, "SASL"@);
}

proof fn lemma_login_delay_refused(s: Seq<u8>, tag_len: nat)
    requires
        is_tagged_line(s, tag_len),
        is_solid("LOGIN-DELAY"@),
        !is_keyword(s.take(tag_len as int), "LOGIN-DELAY"@),
    ensures
        spec_login_delay(s) is Invalid,
{
    lemma_other_keyword_on_tagged_line(s, tag_len, "LOGIN-DELAY"@);
}

proof fn lemma_expire_refused(s: Seq<u8>, tag_len: nat)
    requires
        is_tagged_line(s, tag_len),
        is_solid("EXPIRE"@),
        !is_keyword(s.take(tag_len as int), "EXPIRE"@),
    ensures
        spec_expire(s) is Invalid,
{
    lemma_other_keyword_on_tagged_line(s, tag_len, "EXPIRE"@);
}

proof fn lemma_implementation_refused(s: Seq<u8>, tag_len: nat)
    requires
        is_tagged_line(s, tag_len),
        is_solid("IMPLEMENTATION"@),
        !is_keyword(s.take(tag_len as int), "IMPLEMENTATION"@),
    ensures
        spec_implementation(s) is Invalid,
{
    lemma_other_keyword_on_tagged_line(s, tag_len, "IMPLEMENTATION"@);
}

proof fn lemma_utf8_refused(s: Seq<u8>, tag_len: nat)
    requires
        is_tagged_line(s, tag_len),
        is_solid("UTF8"@),
        !is_keyword(s.take(tag_len as int), "UTF8"@),
    ensures
        spec_utf8_capability(s) is Invalid,
{
    lemma_other_keyword_on_tagged_line(s, tag_len, "UTF8"@);
    if spec_tag_no_case(s, "UTF8"@) is Done {
        let rest = s.skip(encode_utf8("UTF8"@).len() as int);
        assert(encode_utf8(" USER"@) == seq![0x20u8, 0x55u8, 0x53u8, 0x45u8, 0x52u8]) by {
            lemma_capability_literals();
        }
        lemma_tag_rejects(rest, " USER"@, true, 0);
        assert(rest.skip(0) =~= rest);
    }
}

/// The capabilities with parameters are refused on a tagged line whose
/// tag is none of their keywords.
proof fn lemma_parameterized_refused(s: Seq<u8>, tag_len: nat)
    requires
        is_tagged_line(s, tag_len),
        !is_keyword(s.take(tag_len as int), "SASL"@),
        !is_keyword(s.take(tag_len as int), "LOGIN-DELAY"@),
        !is_keyword(s.take(tag_len as int), "EXPIRE"@),
        !is_keyword(s.take(tag_len as int), "IMPLEMENTATION"@),
        !is_keyword(s.take(tag_len as int), "UTF8"@),
    ensures
        spec_sasl(s) is Invalid,
        spec_login_delay(s) is Invalid,
        spec_expire(s) is Invalid,
        spec_implementation(s) is Invalid,
        spec_utf8_capability(s) is Invalid,
{
    lemma_keywords_are_solid();
    lemma_sasl_refused(s, tag_len);
    lemma_login_delay_refused(s, tag_len);
    lemma_expire_refused(s, tag_len);
    lemma_implementation_refused(s, tag_len);
    lemma_utf8_refused(s, tag_len);
}

/// The tag is the keyword of none of the capabilities without parameters.
pub open spec fn is_no_bare_keyword(tag: Seq<u8>) -> bool {
    &&& !is_keyword(tag, "TOP"@)
    &&& !is_keyword(tag, "USER"@)
    &&& !is_keyword(tag, "RESP-CODES"@)
    &&& !is_keyword(tag, "PIPELINING"@)
    &&& !is_keyword(tag, "UIDL"@)
    &&& !is_keyword(tag, "STLS"@)
    &&& !is_keyword(tag, "AUTH-RESP-CODE"@)
    &&& !is_keyword(tag, "LANG"@)
}

/// A tagged line whose tag is none of SASL, LOGIN-DELAY, EXPIRE,
/// IMPLEMENTATION and UTF8 is refused by every rule of a known capability,
/// where a space follows the tag or the tag is no other keyword either.
proof fn lemma_tagged_line_refused(s: Seq<u8>, tag_len: nat)
    requires
        is_tagged_line(s, tag_len),
        !is_keyword(s.take(tag_len as int), "SASL"@),
        !is_keyword(s.take(tag_len as int), "LOGIN-DELAY"@),
        !is_keyword(s.take(tag_len as int), "EXPIRE"@),
        !is_keyword(s.take(tag_len as int), "IMPLEMENTATION"@),
        !is_keyword(s.take(tag_len as int), "UTF8"@),
        s[tag_len as int] == 0x20 || is_no_bare_keyword(s.take(tag_len as int)),
    ensures
        spec_known_capability(s) is Invalid,
{
    reveal(spec_known_capability);
    lemma_keywords_are_solid();
    lemma_parameterized_refused(s, tag_len);
    lemma_bare_refused(s, tag_len, "TOP"@, CapabilityView::Top);
    lemma_bare_refused(s, tag_len, "USER"@, CapabilityView::User);
    lemma_bare_refused(s, tag_len, "RESP-CODES"@, CapabilityView::RespCodes);
    lemma_bare_refused(s, tag_len, "PIPELINING"@, CapabilityView::Pipelining);
    lemma_bare_refused(s, tag_len, "UIDL"@, CapabilityView::Uidl);
    lemma_bare_refused(s, tag_len, "STLS"@, CapabilityView::Stls);
    lemma_bare_refused(s, tag_len, "AUTH-RESP-CODE"@, CapabilityView::AuthRespCode);
    lemma_bare_refused(s, tag_len, "LANG"@, CapabilityView::Lang);
}

/// A line of a tag and parameters is a tagged line.
proof fn lemma_other_line_is_tagged(tag: Seq<char>, rest: Seq<u8>, s: Seq<u8>)
    requires
        is_word(tag, ByteClass::Tag),
        s == encode_utf8(tag) + rest,
        rest.len() > 0,
        rest[0] == 0x20 || rest[0] == 0x0D,
    ensures
        is_tagged_line(s, encode_utf8(tag).len()),
        s.take(encode_utf8(tag).len() as int) == encode_utf8(tag),
        s[encode_utf8(tag).len() as int] == rest[0],
{
    let t = encode_utf8(tag);
    assert(s[t.len() as int] == rest[0]);
    assert forall|i: int| 0 <= i < t.len() implies ByteClass::Tag.spec_holds(#[trigger] s[i]) by {
        assert(s[i] == t[i]);
    }
    lemma_split(t, rest);
}

/// A capability whose tag is none of SASL, LOGIN-DELAY, EXPIRE,
/// IMPLEMENTATION and UTF8, in any mix of upper and lower case, is canonical
/// where it has a parameter, or where its tag is the keyword of no known
/// capability at all: no rule of a known capability accepts its line.
pub proof fn lemma_unknown_tag_is_canonical(tag: Seq<char>, parameters: Seq<Seq<char>>)
    requires
        is_word(tag, ByteClass::Tag),
        are_params(parameters),
        parameters.len() > 0 || is_no_bare_keyword(encode_utf8(tag)),
        !is_keyword(encode_utf8(tag), "SASL"@),
        !is_keyword(encode_utf8(tag), "LOGIN-DELAY"@),
        !is_keyword(encode_utf8(tag), "EXPIRE"@),
        !is_keyword(encode_utf8(tag), "IMPLEMENTATION"@),
        !is_keyword(encode_utf8(tag), "UTF8"@),
    ensures
        is_canonical_capability(CapabilityView::Other { tag, parameters }),
{
    let s = capability_wire(CapabilityView::Other { tag, parameters });
    lemma_other_wire(tag, parameters);
    lemma_after_tag(parameters);
    lemma_other_line_is_tagged(tag, params_wire(parameters) + crlf(), s);
    lemma_tagged_line_refused(s, encode_utf8(tag).len());
}

/// Writing a capability and parsing the line gives the capability back,
/// and nothing is left over. This holds of every canonical capability.
pub proof fn law_capability_round_trip(k: CapabilityView)
    requires
        is_canonical_capability(k),
    ensures
        spec_capability(capability_wire(k)) == Parsed::Done(k, capability_wire(k).len()),
{
    let s = capability_wire(k);
    match k {
        CapabilityView::Sasl { mechanisms } => {
            lemma_sasl_reads(mechanisms);
            lemma_capability_by_keyword(s, "SASL"@);
        },
        CapabilityView::LoginDelay { minimum_seconds, per_user } => {
            lemma_login_delay_reads(minimum_seconds, per_user);
            lemma_capability_by_keyword(s, "LOGIN-DELAY"@);
        },
        CapabilityView::Expire { policy, per_user } => {
            lemma_expire_reads(policy, per_user);
            lemma_capability_by_keyword(s, "EXPIRE"@);
        },
        CapabilityView::Implementation { text } => {
            lemma_implementation_reads(text);
            lemma_capability_by_keyword(s, "IMPLEMENTATION"@);
        },
        CapabilityView::Utf8 { in_credentials } => {
            lemma_utf8_reads(in_credentials);
            lemma_capability_by_keyword(s, "UTF8"@);
        },
        CapabilityView::Other { tag, parameters } => {
            lemma_other_reads(tag, parameters);
        },
        _ => {
            lemma_bare_capabilities(k);
        },
    }
}

// ----- only canonical capabilities are read back -----
/// The words that were read are words of the class.
proof fn lemma_led_words_are_words(s: Seq<u8>, lead: u8, class: ByteClass)
    ensures
        spec_led_words(s, lead, class) matches Parsed::Done(words, _) ==> forall|i: int|
            0 <= i < words.len() ==> is_word(#[trigger] words[i], class),
    decreases s.len(),
{
    let first = spec_byte(s, lead);
    let text = spec_word(s.skip(first.used() as int), class);
    lemma_run_text_is_of_class(s.skip(first.used() as int), class);
    if let Parsed::Done((_, word), n) = then(first, text) {
        if 0 < n <= s.len() {
            lemma_led_words_are_words(s.skip(n as int), lead, class);
            if let Parsed::Done(more, _) = spec_led_words(s.skip(n as int), lead, class) {
                let words = seq![word] + more;
                assert forall|i: int| 0 <= i < words.len() implies is_word(
                    #[trigger] words[i],
                    class,
                ) by {
                    if i > 0 {
                        assert(words[i] == more[i - 1]);
                    }
                }
            }
        }
    }
}

/// What the rules with text hand out is well formed.
proof fn lemma_rules_hand_out_words(s: Seq<u8>)
    ensures
        spec_sasl(s) matches Parsed::Done(CapabilityView::Sasl { mechanisms }, _) ==> are_params(
            mechanisms,
        ),
        spec_implementation(s) matches Parsed::Done(CapabilityView::Implementation { text }, _)
            ==> all_of(encode_utf8(text), ByteClass::Line),
        spec_other_capability(s) matches Parsed::Done(c, _) ==> {
            &&& c matches CapabilityView::Other { tag, parameters }
            &&& is_word(tag, ByteClass::Tag)
            &&& are_params(parameters)
        },
{
    let sasl = spec_tag_no_case(s, "SASL"@);
    lemma_led_words_are_words(s.skip(sasl.used() as int), 0x20, ByteClass::Visible);
    let head = spec_keyword_space(s, "IMPLEMENTATION"@);
    lemma_line_text_is_a_line(s.skip(head.used() as int));
    lemma_run_text_is_of_class(s, ByteClass::Tag);
    let tag = spec_capa_tag(s);
    lemma_led_words_are_words(s.skip(tag.used() as int), 0x20, ByteClass::Visible);
}

/// The rule hands out nothing but known capabilities.
#[verifier::opaque]
pub open spec fn hands_out_known(p: Parsed<CapabilityView>) -> bool {
    p matches Parsed::Done(c, _) ==> !(c is Other)
}

/// Of thirteen alternatives that hand out known capabilities, the first
/// that matches does so too.
proof fn lemma_first_hands_out_known(
    top: Parsed<CapabilityView>,
    user: Parsed<CapabilityView>,
    sasl: Parsed<CapabilityView>,
    resp_codes: Parsed<CapabilityView>,
    login_delay: Parsed<CapabilityView>,
    pipelining: Parsed<CapabilityView>,
    expire: Parsed<CapabilityView>,
    uidl: Parsed<CapabilityView>,
    implementation: Parsed<CapabilityView>,
    stls: Parsed<CapabilityView>,
    auth_resp_code: Parsed<CapabilityView>,
    lang: Parsed<CapabilityView>,
    utf8: Parsed<CapabilityView>,
)
    requires
        hands_out_known(top),
        hands_out_known(user),
        hands_out_known(sasl),
        hands_out_known(resp_codes),
        hands_out_known(login_delay),
        hands_out_known(pipelining),
        hands_out_known(expire),
        hands_out_known(uidl),
        hands_out_known(implementation),
        hands_out_known(stls),
        hands_out_known(auth_resp_code),
        hands_out_known(lang),
        hands_out_known(utf8),
    ensures
        hands_out_known(
            or_else(
                top,
                or_else(
                    user,
                    or_else(
                        sasl,
                        or_else(
                            resp_codes,
                            or_else(
                                login_delay,
                                or_else(
                                    pipelining,
                                    or_else(
                                        expire,
                                        or_else(
                                            uidl,
                                            or_else(
                                                implementation,
                                                or_else(
                                                    stls,
                                                    or_else(
                                                        auth_resp_code,
                                                        or_else(lang, utf8),
                                                    ),
                                                ),
                                            ),
                                        ),
                                    ),
                                ),
                            ),
                        ),
                    ),
                ),
            ),
        ),
{
    reveal(hands_out_known);
}

/// The rules of the known capabilities hand out known capabilities.
proof fn lemma_known_hands_out_known(s: Seq<u8>)
    ensures
        hands_out_known(spec_known_capability(s)),
{
    assert(hands_out_known(spec_bare_capability(s, "TOP"@, CapabilityView::Top))
        && hands_out_known(spec_bare_capability(s, "USER"@, CapabilityView::User))
        && hands_out_known(spec_bare_capability(s, "RESP-CODES"@, CapabilityView::RespCodes))
        && hands_out_known(spec_bare_capability(s, "PIPELINING"@, CapabilityView::Pipelining))
        && hands_out_known(spec_bare_capability(s, "UIDL"@, CapabilityView::Uidl))
        && hands_out_known(spec_bare_capability(s, "STLS"@, CapabilityView::Stls))
        && hands_out_known(
        spec_bare_capability(s, "AUTH-RESP-CODE"@, CapabilityView::AuthRespCode),
    ) && hands_out_known(spec_bare_capability(s, "LANG"@, CapabilityView::Lang))) by {
        reveal(hands_out_known);
    }
    assert(hands_out_known(spec_sasl(s)) && hands_out_known(spec_login_delay(s))
        && hands_out_known(spec_expire(s)) && hands_out_known(spec_implementation(s))
        && hands_out_known(spec_utf8_capability(s))) by {
        reveal(hands_out_known);
    }
    lemma_first_hands_out_known(
        spec_bare_capability(s, "TOP"@, CapabilityView::Top),
        spec_bare_capability(s, "USER"@, CapabilityView::User),
        spec_sasl(s),
        spec_bare_capability(s, "RESP-CODES"@, CapabilityView::RespCodes),
        spec_login_delay(s),
        spec_bare_capability(s, "PIPELINING"@, CapabilityView::Pipelining),
        spec_expire(s),
        spec_bare_capability(s, "UIDL"@, CapabilityView::Uidl),
        spec_implementation(s),
        spec_bare_capability(s, "STLS"@, CapabilityView::Stls),
        spec_bare_capability(s, "AUTH-RESP-CODE"@, CapabilityView::AuthRespCode),
        spec_bare_capability(s, "LANG"@, CapabilityView::Lang),
        spec_utf8_capability(s),
    );
    reveal(spec_known_capability);
}

/// A capability that is read back as it was written is canonical.
proof fn lemma_round_trip_needs_canonical(k: CapabilityView)
    requires
        spec_capability(capability_wire(k)) == Parsed::Done(k, capability_wire(k).len()),
    ensures
        is_canonical_capability(k),
{
    let s = capability_wire(k);
    lemma_known_hands_out_known(s);
    lemma_rules_hand_out_words(s);
    match k {
        CapabilityView::Sasl { mechanisms } => {
            assert(spec_known_capability(s) == spec_sasl(s)) by {
                lemma_sasl_wire(mechanisms);
                lemma_begins_with(s, "SASL"@, params_wire(mechanisms) + crlf());
                lemma_capability_by_keyword(s, "SASL"@);
            }
        },
        CapabilityView::Implementation { text } => {
            assert(spec_known_capability(s) == spec_implementation(s)) by {
                lemma_implementation_wire(text);
                lemma_begins_with(s, "IMPLEMENTATION"@, sp() + (encode_utf8(text) + crlf()));
                lemma_capability_by_keyword(s, "IMPLEMENTATION"@);
            }
        },
        CapabilityView::Other { tag, parameters } => {
            assert(spec_known_capability(s) is Invalid) by {
                reveal(hands_out_known);
            }
        },
        _ => {},
    }
}

/// A capability is read back as it was written if, and only if, it is
/// canonical.
pub proof fn law_capability_round_trip_is_exact(k: CapabilityView)
    ensures
        spec_capability(capability_wire(k)) == Parsed::Done(k, capability_wire(k).len())
            <==> is_canonical_capability(k),
{
    if is_canonical_capability(k) {
        law_capability_round_trip(k);
    }
    if spec_capability(capability_wire(k)) == Parsed::Done(k, capability_wire(k).len()) {
        lemma_round_trip_needs_canonical(k);
    }
}

} // verus!
