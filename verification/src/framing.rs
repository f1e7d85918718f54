//! How responses are framed: where a response ends, and what a negative
//! response is read as.

use crate::parse::response::{
    spec_body, spec_head, spec_line_of, spec_listing, spec_multi_line, spec_resp_code,
    spec_single_line, spec_status, spec_status_line, spec_terminator, Status,
};
use crate::parse::token::{
    lemma_run_end, spec_byte, spec_led_words, spec_line_ending, spec_line_text,
    spec_not_line_ending, spec_run_text, spec_space, spec_tag, spec_tag_no_case, spec_take_while,
    spec_take_while1, spec_word, then, ByteClass, Parsed,
};
use crate::streaming::within;
use crate::types::response::{CapabilityView, MultiLineView, Response, SingleLineView};
use vstd::prelude::*;
use vstd::string::*;
use vstd::utf8::*;

verus! {

// ----- what a rule reads lies within the input -----
proof fn lemma_runs_within(s: Seq<u8>, class: ByteClass)
    ensures
        within(spec_take_while(s, class), s),
        within(spec_take_while1(s, class), s),
        within(spec_run_text(s, class), s),
        within(spec_word(s, class), s),
        within(spec_not_line_ending(s), s),
        within(spec_line_text(s), s),
        within(spec_space(s), s),
        within(spec_line_ending(s), s),
{
    lemma_run_end(s, class, 0);
    lemma_run_end(s, ByteClass::Line, 0);
}

proof fn lemma_tag_within(s: Seq<u8>, tag: Seq<char>)
    ensures
        within(spec_tag(s, tag), s),
        within(spec_tag_no_case(s, tag), s),
{
}

proof fn lemma_led_words_within(s: Seq<u8>, lead: u8, class: ByteClass)
    ensures
        within(spec_led_words(s, lead, class), s),
    decreases s.len(),
{
    let first = spec_byte(s, lead);
    let text = spec_word(s.skip(first.used() as int), class);
    if let Parsed::Done(_, n) = then(first, text) {
        if 0 < n <= s.len() {
            lemma_led_words_within(s.skip(n as int), lead, class);
        }
    }
}

proof fn lemma_resp_code_within(s: Seq<u8>)
    ensures
        within(spec_resp_code(s), s),
{
    let open = spec_tag(s, "["@);
    lemma_tag_within(s, "["@);
    if open is Done {
        let s1 = s.skip(open.used() as int);
        let first = spec_word(s1, ByteClass::Level);
        lemma_runs_within(s1, ByteClass::Level);
        if first is Done {
            let s2 = s.skip((open.used() + first.used()) as int);
            let more = spec_led_words(s2, 0x2F, ByteClass::Level);
            lemma_led_words_within(s2, 0x2F, ByteClass::Level);
            if more is Done {
                let s3 = s.skip((open.used() + first.used() + more.used()) as int);
                lemma_tag_within(s3, "]"@);
            }
        }
    }
}

proof fn lemma_head_within(s: Seq<u8>)
    ensures
        within(spec_head(s), s),
{
    reveal(spec_head);
    let gap = spec_space(s);
    if gap is Done {
        let s1 = s.skip(1);
        lemma_runs_within(s1, ByteClass::Status);
        let code = spec_resp_code(s1);
        lemma_resp_code_within(s1);
        if code is Done {
            let s2 = s1.skip(code.used() as int);
            lemma_runs_within(s2, ByteClass::Line);
            let gap2 = spec_space(s2);
            if gap2 is Done {
                let s3 = s1.skip((code.used() + gap2.used()) as int);
                lemma_runs_within(s3, ByteClass::Line);
            }
        }
    }
}

/// The last byte that a line ending reads is LF.
pub open spec fn ends_in_lf(s: Seq<u8>, n: nat) -> bool {
    1 <= n <= s.len() && s[n - 1] == 0x0A
}

/// A status line ends in LF, within the input.
proof fn lemma_status_line_ends(s: Seq<u8>)
    ensures
        spec_status_line(s) matches Parsed::Done(_, n) ==> ends_in_lf(s, n),
{
    let status = spec_status(s);
    lemma_tag_within(s, "+OK"@);
    lemma_tag_within(s, "-ERR"@);
    if status is Done {
        let rest = s.skip(status.used() as int);
        let line = spec_head(rest);
        lemma_head_within(rest);
        assert(rest.skip(0) =~= rest);
        if line is Done {
            let end = spec_line_ending(rest.skip(line.used() as int));
            if let Parsed::Done(_, m) = end {
                let n = status.used() + line.used() + m;
                assert(rest.skip(line.used() as int)[m - 1] == s[n - 1]);
            }
        }
    }
}

// ----- multi-line responses -----
/// The bytes of the lines of a body, up to where the terminating line
/// stands.
pub open spec fn body_lines<V>(
    rule: spec_fn(Seq<u8>) -> Parsed<V>,
    own_ending: bool,
    s: Seq<u8>,
) -> nat
    decreases s.len(),
{
    if spec_terminator(s) is Invalid {
        match spec_line_of(rule, own_ending, s) {
            Parsed::Done(_, n) => if 0 < n <= s.len() {
                n + body_lines(rule, own_ending, s.skip(n as int))
            } else {
                0
            },
            _ => 0,
        }
    } else {
        0
    }
}

/// The first `k` bytes are lines that the rule reads, one after the
/// other, and none of them begins where the terminating line stands.
pub open spec fn lines_before<V>(
    rule: spec_fn(Seq<u8>) -> Parsed<V>,
    own_ending: bool,
    s: Seq<u8>,
    k: nat,
) -> bool
    decreases k,
{
    k == 0 || {
        &&& spec_terminator(s) is Invalid
        &&& spec_line_of(rule, own_ending, s) matches Parsed::Done(_, n)
        &&& 0 < n <= k
        &&& n <= s.len()
        &&& lines_before(rule, own_ending, s.skip(n as int), (k - n) as nat)
    }
}

/// The consumed input ends with a lone `.` and LF or CR LF.
pub open spec fn ends_with_dot(s: Seq<u8>, n: nat) -> bool {
    &&& 2 <= n <= s.len()
    &&& s[n - 1] == 0x0A
    &&& s[n - 2] == 0x2E || (n >= 3 && s[n - 2] == 0x0D && s[n - 3] == 0x2E)
}

/// The consumed input ends with the terminating line on a line of its
/// own: LF, `.`, and LF or CR LF.
pub open spec fn ends_with_terminator(s: Seq<u8>, n: nat) -> bool {
    &&& n <= s.len()
    &&& n >= 3
    &&& s[n - 1] == 0x0A
    &&& {
        ||| s[n - 2] == 0x2E && s[n - 3] == 0x0A
        ||| n >= 4 && s[n - 2] == 0x0D && s[n - 3] == 0x2E && s[n - 4] == 0x0A
    }
}

/// Where the body of a positive multi-line response begins.
pub open spec fn body_start(s: Seq<u8>) -> nat {
    spec_status_line(s).used()
}

/// The terminating line is `.` and LF, or `.` and CR LF.
proof fn lemma_terminator_ends(x: Seq<u8>)
    ensures
        spec_terminator(x) matches Parsed::Done(_, t) ==> {
            &&& 2 <= t <= 3
            &&& t <= x.len()
            &&& x[0] == 0x2E
            &&& x[t - 1] == 0x0A
            &&& t == 3 ==> x[1] == 0x0D
        },
{
    if spec_byte(x, 0x2E) is Done {
        let y = x.skip(1);
        if let Parsed::Done(_, m) = spec_line_ending(y) {
            assert(y[m - 1] == x[m as int]);
            assert(y[0] == x[1]);
        }
    }
}

/// A line that ends with a line ending of the framing ends in LF.
proof fn lemma_line_ends_in_lf<V>(rule: spec_fn(Seq<u8>) -> Parsed<V>, s: Seq<u8>)
    ensures
        spec_line_of(rule, false, s) matches Parsed::Done(_, n) ==> n <= s.len() ==> ends_in_lf(
            s,
            n,
        ),
{
    let used = rule(s).used();
    if let Parsed::Done(_, m) = spec_line_ending(s.skip(used as int)) {
        if used + m <= s.len() {
            assert(s.skip(used as int)[m - 1] == s[used + m - 1]);
        }
    }
}

/// The body of a response ends with its terminating line, which stands
/// after lines of which none is the terminating line.
proof fn lemma_body_ends<V>(rule: spec_fn(Seq<u8>) -> Parsed<V>, own_ending: bool, b: Seq<u8>)
    ensures
        spec_body(rule, own_ending, b) matches Parsed::Done(_, m) ==> {
            let k = body_lines(rule, own_ending, b);
            &&& k + 2 <= m <= k + 3
            &&& m <= b.len()
            &&& !own_ending && k > 0 ==> b[k - 1] == 0x0A
            &&& b[k as int] == 0x2E
            &&& b[m - 1] == 0x0A
            &&& m == k + 3 ==> b[k as int + 1] == 0x0D
            &&& spec_terminator(b.skip(k as int)) == Parsed::Done((), (m - k) as nat)
            &&& lines_before(rule, own_ending, b, k)
        },
    decreases b.len(),
{
    if let Parsed::Done(_, m) = spec_body(rule, own_ending, b) {
        lemma_terminator_ends(b);
        if spec_terminator(b) is Invalid {
            let n = spec_line_of(rule, own_ending, b).used();
            let rest = b.skip(n as int);
            lemma_body_ends(rule, own_ending, rest);
            lemma_line_ends_in_lf(rule, b);
            let k = body_lines(rule, own_ending, rest);
            let m1 = spec_body(rule, own_ending, rest).used();
            assert(m == n + m1);
            assert(rest.skip(k as int) =~= b.skip((n + k) as int));
            assert(rest[k as int] == b[(n + k) as int]);
            assert(rest[m1 - 1] == b[m - 1]);
            if m1 == k + 3 {
                assert(rest[k as int + 1] == b[(n + k) as int + 1]);
            }
            if k > 0 {
                assert(rest[k - 1] == b[n + k - 1]);
            }
        } else {
            assert(b.skip(0) =~= b);
        }
    }
}

/// A positive response with a body is read up to the end of its
/// terminating line and no further, whatever the rule of its lines is: the
/// consumed input ends with a lone `.`, and the lines before that line were
/// each held against the terminating line before the rule read them, so that
/// the terminating line is no part of the body. Where the line endings are
/// those of the framing, the lone `.` stands on a line of its own.
pub proof fn law_listing_ends_at_terminator<V>(
    rule: spec_fn(Seq<u8>) -> Parsed<V>,
    own_ending: bool,
    s: Seq<u8>,
)
    requires
        spec_listing(rule, own_ending, s) matches Parsed::Done(Response::Positive(_), _),
    ensures
        ({
            let n = spec_listing(rule, own_ending, s).used();
            let body = s.skip(body_start(s) as int);
            let lines = body_lines(rule, own_ending, body);
            let dot = body_start(s) + lines;
            &&& ends_with_dot(s, n)
            &&& !own_ending ==> ends_with_terminator(s, n)
            &&& lines_before(rule, own_ending, body, lines)
            &&& spec_terminator(s.skip(dot as int)) == Parsed::Done((), (n - dot) as nat)
        }),
{
    let start = body_start(s);
    let b = s.skip(start as int);
    let k = body_lines(rule, own_ending, b);
    let m = spec_body(rule, own_ending, b).used();
    let n = start + m;
    assert(ends_in_lf(s, start)) by {
        lemma_status_line_ends(s);
    }
    assert(spec_body(rule, own_ending, b) is Done && spec_listing(rule, own_ending, s).used()
        == n);
    lemma_body_ends(rule, own_ending, b);
    assert(b.skip(k as int) =~= s.skip((start + k) as int));
    assert(b[k as int] == s[(start + k) as int]);
    assert(b[m - 1] == s[n - 1]);
    if k > 0 {
        assert(b[k - 1] == s[start + k - 1]);
    }
    if m == k + 3 {
        assert(b[k as int + 1] == s[(start + k) as int + 1]);
    }
}

/// A positive multi-line response is read up to the end of its
/// terminating line and no further, whatever the line parser is: the
/// consumed input ends with a lone `.` on a line of its own, and no line
/// of the body is that line.
pub proof fn law_multi_line_ends_at_terminator<V>(rule: spec_fn(Seq<u8>) -> Parsed<V>, s: Seq<u8>)
    requires
        spec_multi_line(rule, s) matches Parsed::Done(Response::Positive(_), _),
    ensures
        ({
            let n = spec_multi_line(rule, s).used();
            let body = s.skip(body_start(s) as int);
            let lines = body_lines(rule, false, body);
            let dot = body_start(s) + lines;
            &&& ends_with_terminator(s, n)
            &&& lines_before(rule, false, body, lines)
            &&& spec_terminator(s.skip(dot as int)) == Parsed::Done((), (n - dot) as nat)
        }),
{
    law_listing_ends_at_terminator(rule, false, s);
}

/// The body ends at the first lone `.`, even where the rule of the lines
/// would read that line: a body that begins with the terminating line is
/// empty.
pub proof fn law_terminator_is_never_a_line<V>(
    rule: spec_fn(Seq<u8>) -> Parsed<V>,
    own_ending: bool,
    s: Seq<u8>,
)
    requires
        spec_terminator(s) is Done,
    ensures
        spec_body(rule, own_ending, s) == Parsed::Done(
            Seq::<V>::empty(),
            spec_terminator(s).used(),
        ),
{
}

/// No line of a message body is a lone `.`.
pub proof fn law_message_lines_are_no_terminator(s: Seq<u8>)
    ensures
        spec_body(crate::parse::dot_stuffed_rule(), false, s) matches Parsed::Done(lines, _)
            ==> forall|i: int| 0 <= i < lines.len() ==> #[trigger] lines[i] != "."@,
    decreases s.len(),
{
    let rule = crate::parse::dot_stuffed_rule();
    if spec_terminator(s) is Invalid {
        if let Parsed::Done(line, n) = spec_line_of(rule, false, s) {
            if 0 < n <= s.len() {
                law_message_lines_are_no_terminator(s.skip(n as int));
                if let Parsed::Done(more, _) = spec_body(rule, false, s.skip(n as int)) {
                    let lines = seq![line] + more;
                    assert forall|i: int| 0 <= i < lines.len() implies #[trigger] lines[i]
                        != "."@ by {
                        if i > 0 {
                            assert(lines[i] == more[i - 1]);
                        }
                    }
                }
            }
        }
    }
}

// ----- a body, line by line -----
/// What stands between a line of a body and the next: CR LF, or nothing
/// where the lines hold their own line endings.
pub open spec fn line_end(own_ending: bool) -> Seq<u8> {
    if own_ending {
        Seq::empty()
    } else {
        seq![0x0Du8, 0x0Au8]
    }
}

/// The bytes of a body: each line with its line ending, then the
/// terminating line, then what follows the response.
pub open spec fn body_wire(lines: Seq<Seq<u8>>, own_ending: bool, rest: Seq<u8>) -> Seq<u8>
    decreases lines.len(),
{
    if lines.len() == 0 {
        seq![0x2Eu8, 0x0Du8, 0x0Au8] + rest
    } else {
        lines.first() + line_end(own_ending) + body_wire(lines.drop_first(), own_ending, rest)
    }
}

/// A line of a body that is not the terminating line: with its line
/// ending, it does not begin with a lone `.` and a line ending.
pub open spec fn is_body_line(line: Seq<u8>, own_ending: bool) -> bool {
    spec_terminator(line + line_end(own_ending)) is Invalid
}

/// The rule reads each line where it stands in the body, and stops where
/// the line stops, with the value at the same place in `values`; and no line
/// is the terminating line.
pub open spec fn reads_each<V>(
    rule: spec_fn(Seq<u8>) -> Parsed<V>,
    own_ending: bool,
    lines: Seq<Seq<u8>>,
    values: Seq<V>,
    rest: Seq<u8>,
) -> bool
    decreases lines.len(),
{
    &&& lines.len() == values.len()
    &&& lines.len() > 0 ==> {
        &&& is_body_line(lines.first(), own_ending)
        &&& rule(body_wire(lines, own_ending, rest)) == Parsed::Done(
            values.first(),
            lines.first().len(),
        )
        &&& reads_each(rule, own_ending, lines.drop_first(), values.drop_first(), rest)
    }
}

/// A body of lines that the rule reads is read as their values, up to the
/// end of the terminating line.
proof fn lemma_body_reads_its_lines<V>(
    rule: spec_fn(Seq<u8>) -> Parsed<V>,
    own_ending: bool,
    lines: Seq<Seq<u8>>,
    values: Seq<V>,
    rest: Seq<u8>,
)
    requires
        reads_each(rule, own_ending, lines, values, rest),
    ensures
        body_wire(lines, own_ending, rest).len() >= rest.len(),
        spec_body(rule, own_ending, body_wire(lines, own_ending, rest)) == Parsed::Done(
            values,
            (body_wire(lines, own_ending, rest).len() - rest.len()) as nat,
        ),
    decreases lines.len(),
{
    let wire = body_wire(lines, own_ending, rest);
    if lines.len() == 0 {
        assert(wire.skip(1)[0] == wire[1] && wire.skip(1)[1] == wire[2]);
        assert(spec_terminator(wire) == Parsed::Done((), 3));
        assert(values =~= Seq::<V>::empty());
    } else {
        let line = lines.first();
        let n = line.len() + line_end(own_ending).len();
        let after = body_wire(lines.drop_first(), own_ending, rest);
        lemma_body_reads_its_lines(rule, own_ending, lines.drop_first(), values.drop_first(), rest);
        assert(spec_terminator(wire) is Invalid) by {
            crate::streaming::response::lemma_terminator_steady(wire, n as int);
            assert(wire.take(n as int) =~= line + line_end(own_ending));
        }
        assert(n > 0);
        if !own_ending {
            let ending = wire.skip(line.len() as int);
            assert(ending[0] == 0x0D && ending[1] == 0x0A);
        }
        assert(spec_line_of(rule, own_ending, wire) == Parsed::Done(values.first(), n));
        assert(wire.skip(n as int) =~= after);
        assert(seq![values.first()] + values.drop_first() =~= values);
    }
}

/// Whatever the rule of the lines is: where the body after a positive
/// status line is made of lines that the rule reads, each up to where it
/// stops and none of them the terminating line, and of the terminating line
/// after them, the response holds the values of those lines in their order.
/// It is read up to the end of the terminating line: what follows that line
/// is left, and the terminating line gives no value.
pub proof fn law_listing_reads_its_lines<V>(
    rule: spec_fn(Seq<u8>) -> Parsed<V>,
    own_ending: bool,
    s: Seq<u8>,
    lines: Seq<Seq<u8>>,
    values: Seq<V>,
    rest: Seq<u8>,
)
    requires
        spec_status_line(s) matches Parsed::Done(Response::Positive(_), n) && s.skip(n as int)
            == body_wire(lines, own_ending, rest),
        reads_each(rule, own_ending, lines, values, rest),
    ensures
        s.len() >= rest.len(),
        spec_status_line(s) matches Parsed::Done(Response::Positive(head), _) && spec_listing(
            rule,
            own_ending,
            s,
        ) == Parsed::Done(
            Response::<MultiLineView<V>, SingleLineView>::Positive(
                (MultiLineView { head, body: values }),
            ),
            (s.len() - rest.len()) as nat,
        ),
{
    lemma_status_line_ends(s);
    lemma_body_reads_its_lines(rule, own_ending, lines, values, rest);
}

/// A multi-line response whose lines the line parser reads, each up to
/// the CR LF after it and none of them a lone `.`, holds the values of those
/// lines in their order, and is read up to the end of the terminating line.
pub proof fn law_multi_line_reads_its_lines<V>(
    rule: spec_fn(Seq<u8>) -> Parsed<V>,
    s: Seq<u8>,
    lines: Seq<Seq<u8>>,
    values: Seq<V>,
    rest: Seq<u8>,
)
    requires
        spec_status_line(s) matches Parsed::Done(Response::Positive(_), n) && s.skip(n as int)
            == body_wire(lines, false, rest),
        reads_each(rule, false, lines, values, rest),
    ensures
        s.len() >= rest.len(),
        spec_status_line(s) matches Parsed::Done(Response::Positive(head), _) && spec_multi_line(
            rule,
            s,
        ) == Parsed::Done(
            Response::<MultiLineView<V>, SingleLineView>::Positive(
                (MultiLineView { head, body: values }),
            ),
            (s.len() - rest.len()) as nat,
        ),
{
    law_listing_reads_its_lines(rule, false, s, lines, values, rest);
}

/// A capability listing holds one capability for each capability line,
/// with the one line ending that the line holds, and ends with the
/// terminating line.
pub proof fn law_capability_listing_reads_its_lines(
    s: Seq<u8>,
    lines: Seq<Seq<u8>>,
    values: Seq<CapabilityView>,
    rest: Seq<u8>,
)
    requires
        spec_status_line(s) matches Parsed::Done(Response::Positive(_), n) && s.skip(n as int)
            == body_wire(lines, true, rest),
        reads_each(crate::parse::capability_rule(), true, lines, values, rest),
    ensures
        s.len() >= rest.len(),
        spec_status_line(s) matches Parsed::Done(Response::Positive(head), _)
            && crate::parse::spec_capability_listing(s) == Parsed::Done(
            Response::<MultiLineView<CapabilityView>, SingleLineView>::Positive(
                (MultiLineView { head, body: values }),
            ),
            (s.len() - rest.len()) as nat,
        ),
{
    law_listing_reads_its_lines(crate::parse::capability_rule(), true, s, lines, values, rest);
}

// ----- negative responses -----
/// A negative response is read as a status line, whatever payload a
/// positive response to the same command would hold, and whether or not
/// that payload must be there: the space that a required payload asks for is
/// never asked for after `-ERR`.
pub proof fn law_negative_has_no_payload<V>(
    first: spec_fn(Seq<u8>) -> Parsed<V>,
    first_required: bool,
    second: spec_fn(Seq<u8>) -> Parsed<V>,
    second_required: bool,
    s: Seq<u8>,
)
    requires
        spec_status(s) matches Parsed::Done(Status::Negative, _),
    ensures
        spec_single_line(first, first_required, s) == spec_single_line(second, second_required, s),
        spec_single_line(first, first_required, s) matches Parsed::Done(response, _)
            ==> response is Negative,
{
}

} // verus!
