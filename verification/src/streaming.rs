//! What more input can change: nothing but an incomplete outcome.
//!
//! A parser is handed the bytes that have arrived so far. Where it reports
//! a value or a syntax error, that report is final: on any longer input that
//! begins with the same bytes it reports the same. Only "incomplete" gives
//! way to another outcome as more bytes arrive.

pub mod command;
pub mod response;

use crate::parse::token::{
    lemma_run_end, lemma_run_end_is, run_len, same_byte, spec_byte, spec_line_ending,
    spec_line_text, spec_not_line_ending, spec_number, spec_run_text, spec_space, spec_tag_with,
    spec_take_while, spec_take_while1, spec_take_while_m_n, spec_word, tag_differs, then, ByteClass,
    Parsed,
};
use vstd::prelude::*;
use vstd::string::*;
use vstd::utf8::*;

verus! {

/// The outcome on a part of the input is incomplete, or it is the outcome
/// on the whole input.
pub open spec fn settled<V>(part: Parsed<V>, whole: Parsed<V>) -> bool {
    part is Incomplete || part == whole
}

/// A rule reads no more than there is.
pub open spec fn within<V>(p: Parsed<V>, s: Seq<u8>) -> bool {
    p matches Parsed::Done(_, n) ==> n <= s.len()
}

/// The outcome on the first `k` bytes is settled, and both outcomes lie
/// within their inputs.
pub open spec fn steady<V>(part: Parsed<V>, whole: Parsed<V>, s: Seq<u8>, k: int) -> bool {
    settled(part, whole) && within(part, s.take(k)) && within(whole, s)
}

/// Dropping bytes from a part of the input is taking a part of what is
/// left when they are dropped from the whole.
pub(crate) proof fn lemma_part_skip(s: Seq<u8>, k: int, n: int)
    requires
        0 <= n <= k <= s.len(),
    ensures
        s.take(k).skip(n) == s.skip(n).take(k - n),
        s.skip(n).len() == s.len() - n,
{
    assert(s.take(k).skip(n) =~= s.skip(n).take(k - n));
}

// ----- tokens -----
pub(crate) proof fn lemma_tag_steady(s: Seq<u8>, k: int, tag: Seq<char>, fold: bool)
    requires
        0 <= k <= s.len(),
    ensures
        steady(spec_tag_with(s.take(k), tag, fold), spec_tag_with(s, tag, fold), s, k),
{
    let part = s.take(k);
    let bytes = encode_utf8(tag);
    if tag_differs(part, bytes, fold) {
        let i = choose|i: int|
            0 <= i < part.len() && i < bytes.len() && !same_byte(
                #[trigger] part[i],
                bytes[i],
                fold,
            );
        assert(s[i] == part[i]);
    } else if part.len() >= bytes.len() {
        if tag_differs(s, bytes, fold) {
            let i = choose|i: int|
                0 <= i < s.len() && i < bytes.len() && !same_byte(#[trigger] s[i], bytes[i], fold);
            assert(s[i] == part[i]);
        }
    }
}

pub(crate) proof fn lemma_byte_steady(s: Seq<u8>, k: int, byte: u8)
    requires
        0 <= k <= s.len(),
    ensures
        steady(spec_byte(s.take(k), byte), spec_byte(s, byte), s, k),
        steady(spec_space(s.take(k)), spec_space(s), s, k),
{
    if k > 0 {
        assert(s.take(k)[0] == s[0]);
    }
}

pub(crate) proof fn lemma_line_ending_steady(s: Seq<u8>, k: int)
    requires
        0 <= k <= s.len(),
    ensures
        steady(spec_line_ending(s.take(k)), spec_line_ending(s), s, k),
{
    if k > 0 {
        assert(s.take(k)[0] == s[0]);
    }
    if k > 1 {
        assert(s.take(k)[1] == s[1]);
    }
}

/// A run that ends within a part of the input ends there in the whole.
pub(crate) proof fn lemma_run_steady(s: Seq<u8>, k: int, class: ByteClass)
    requires
        0 <= k <= s.len(),
    ensures
        run_len(s.take(k), class) <= k,
        run_len(s, class) <= s.len(),
        run_len(s.take(k), class) < k ==> run_len(s, class) == run_len(s.take(k), class),
        run_len(s.take(k), class) == k ==> run_len(s, class) >= k,
{
    let part = s.take(k);
    let n = run_len(part, class);
    lemma_run_end(part, class, 0);
    lemma_run_end(s, class, 0);
    assert forall|i: int| 0 <= i < n implies class.spec_holds(#[trigger] s[i]) by {
        assert(s[i] == part[i]);
    }
    if n < k {
        assert(s[n as int] == part[n as int]);
        lemma_run_end_is(s, class, 0, n);
    } else {
        let m = run_len(s, class);
        if m < k {
            assert(class.spec_holds(s[m as int]));
        }
    }
}

pub(crate) proof fn lemma_take_while_steady(s: Seq<u8>, k: int, class: ByteClass)
    requires
        0 <= k <= s.len(),
    ensures
        steady(spec_take_while(s.take(k), class), spec_take_while(s, class), s, k),
        steady(spec_take_while1(s.take(k), class), spec_take_while1(s, class), s, k),
{
    let part = s.take(k);
    let n = run_len(part, class);
    lemma_run_steady(s, k, class);
    if n < k {
        assert(part.take(n as int) =~= s.take(n as int));
    }
}

pub(crate) proof fn lemma_take_while_m_n_steady(
    s: Seq<u8>,
    k: int,
    min: nat,
    max: nat,
    class: ByteClass,
)
    requires
        0 <= k <= s.len(),
        min <= max,
    ensures
        steady(
            spec_take_while_m_n(s.take(k), min, max, class),
            spec_take_while_m_n(s, min, max, class),
            s,
            k,
        ),
{
    let part = s.take(k);
    let n = run_len(part, class);
    lemma_run_steady(s, k, class);
    if n < k {
        assert(part.take(n as int) =~= s.take(n as int));
    }
    if max <= k {
        assert(part.take(max as int) =~= s.take(max as int));
    }
}

pub(crate) proof fn lemma_not_line_ending_steady(s: Seq<u8>, k: int)
    requires
        0 <= k <= s.len(),
    ensures
        steady(spec_not_line_ending(s.take(k)), spec_not_line_ending(s), s, k),
        steady(spec_line_text(s.take(k)), spec_line_text(s), s, k),
{
    let part = s.take(k);
    let n = run_len(part, ByteClass::Line);
    lemma_run_steady(s, k, ByteClass::Line);
    if n < k {
        assert(part.take(n as int) =~= s.take(n as int));
        assert(part[n as int] == s[n as int]);
        if n + 1 < k {
            assert(part[n as int + 1] == s[n as int + 1]);
        }
    }
}

pub(crate) proof fn lemma_text_runs_steady(s: Seq<u8>, k: int, class: ByteClass)
    requires
        0 <= k <= s.len(),
    ensures
        steady(spec_run_text(s.take(k), class), spec_run_text(s, class), s, k),
        steady(spec_word(s.take(k), class), spec_word(s, class), s, k),
{
    lemma_take_while_steady(s, k, class);
}

pub(crate) proof fn lemma_number_steady(s: Seq<u8>, k: int)
    requires
        0 <= k <= s.len(),
    ensures
        steady(spec_number(s.take(k)), spec_number(s), s, k),
{
    let part = s.take(k);
    let n = run_len(part, ByteClass::Digit);
    lemma_run_steady(s, k, ByteClass::Digit);
    if n < k {
        assert(part.take(n as int) =~= s.take(n as int));
    }
}

/// Two rules in sequence are steady where each of them is: the second on
/// what the first has left.
pub(crate) proof fn lemma_then_steady<A, B>(
    first_part: Parsed<A>,
    first_whole: Parsed<A>,
    second_part: Parsed<B>,
    second_whole: Parsed<B>,
    s: Seq<u8>,
    k: int,
)
    requires
        0 <= k <= s.len(),
        steady(first_part, first_whole, s, k),
        first_part matches Parsed::Done(_, n) ==> steady(
            second_part,
            second_whole,
            s.skip(n as int),
            k - n,
        ),
        first_whole matches Parsed::Done(_, n) ==> within(second_whole, s.skip(n as int)),
    ensures
        steady(then(first_part, second_part), then(first_whole, second_whole), s, k),
{
}

} // verus!
