//! What is written can be read back: the laws that tie the serializers to
//! the parsers, and the values for which they hold.

pub mod capability;
pub mod command;
pub mod exact;

use crate::parse::command::spec_keyword_space;
use crate::parse::token::{
    lemma_run_end, lemma_run_end_is, lemma_tag_matches, lemma_tag_rejects, run_len, same_byte,
    spec_line_ending, spec_line_text, spec_number, spec_run_text, spec_space, spec_tag_no_case,
    spec_tag_with, spec_word, ByteClass, Parsed,
};
use crate::text::{
    decimal, lemma_decimal_digits, lemma_decimal_value, lemma_encode_ascii, lemma_encode_concat,
    lemma_encode_lacks, spec_text,
};
use vstd::prelude::*;
use vstd::string::*;
use vstd::utf8::*;

verus! {

// ----- reading back what was written -----
/// Every byte is of the class.
pub open spec fn all_of(bytes: Seq<u8>, class: ByteClass) -> bool {
    forall|i: int| 0 <= i < bytes.len() ==> class.spec_holds(#[trigger] bytes[i])
}

/// The bytes CR LF.
pub open spec fn crlf() -> Seq<u8> {
    seq![0x0Du8, 0x0Au8]
}

/// A text without CR and LF has an encoding of bytes that are neither.
pub proof fn lemma_text_without_line_endings(text: Seq<char>)
    requires
        forall|j: int| 0 <= j < text.len() ==> #[trigger] text[j] != '\r' && text[j] != '\n',
    ensures
        all_of(encode_utf8(text), ByteClass::Line),
{
    assert forall|j: int| 0 <= j < text.len() implies #[trigger] text[j] as u32 != 0x0Du8 as u32
        && text[j] as u32 != 0x0Au8 as u32 by {
        char_u32_cast('\r', 0x0D);
        char_u32_cast('\n', 0x0A);
        char_u32_cast(text[j], text[j] as u32);
    }
    lemma_encode_lacks(text, 0x0D);
    lemma_encode_lacks(text, 0x0A);
}

/// A text without a space has an encoding without the byte of a space.
pub proof fn lemma_text_without_spaces(text: Seq<char>)
    requires
        forall|j: int| 0 <= j < text.len() ==> #[trigger] text[j] != ' ',
    ensures
        all_of(encode_utf8(text), ByteClass::NotSpace),
{
    assert forall|j: int| 0 <= j < text.len() implies #[trigger] text[j] as u32
        != 0x20u8 as u32 by {
        char_u32_cast(' ', 0x20);
        char_u32_cast(text[j], text[j] as u32);
    }
    lemma_encode_lacks(text, 0x20);
}

/// An ASCII text whose characters are of a class has an encoding of bytes
/// of that class.
pub proof fn lemma_ascii_text_of_class(text: Seq<char>, class: ByteClass)
    requires
        is_ascii_chars(text),
        forall|j: int| 0 <= j < text.len() ==> class.spec_holds(#[trigger] text[j] as u8),
    ensures
        all_of(encode_utf8(text), class),
{
    lemma_encode_ascii(text);
    assert forall|i: int| 0 <= i < encode_utf8(text).len() implies class.spec_holds(
        #[trigger] encode_utf8(text)[i],
    ) by {
        assert(encode_utf8(text)[i] == text[i] as u8);
    }
}

/// What is left of a concatenation when its first part is dropped or taken.
pub proof fn lemma_split(a: Seq<u8>, rest: Seq<u8>)
    ensures
        (a + rest).skip(a.len() as int) == rest,
        (a + rest).take(a.len() as int) == a,
{
    assert((a + rest).skip(a.len() as int) =~= rest);
    assert((a + rest).take(a.len() as int) =~= a);
}

/// A run of `class` that is followed by a byte of another class, or by
/// nothing, ends where it ends.
pub proof fn lemma_run_of(a: Seq<u8>, rest: Seq<u8>, class: ByteClass)
    requires
        all_of(a, class),
        rest.len() > 0 ==> !class.spec_holds(rest[0]),
    ensures
        run_len(a + rest, class) == a.len(),
{
    let s = a + rest;
    assert forall|i: int| 0 <= i < a.len() implies class.spec_holds(#[trigger] s[i]) by {
        assert(s[i] == a[i]);
    }
    if a.len() < s.len() {
        assert(s[a.len() as int] == rest[0]);
    }
    lemma_run_end_is(s, class, 0, a.len());
}

/// The encoding of a text is read back as the text.
pub proof fn lemma_text_of_encoding(text: Seq<char>)
    ensures
        spec_text(encode_utf8(text)) == Some(text),
{
    encode_utf8_valid_utf8(text);
    encode_utf8_decode_utf8(text);
}

/// A literal tag reads itself.
pub proof fn lemma_tag_reads(tag: Seq<char>, rest: Seq<u8>, fold: bool)
    ensures
        spec_tag_with(encode_utf8(tag) + rest, tag, fold) == Parsed::Done(
            (),
            encode_utf8(tag).len(),
        ),
{
    lemma_split(encode_utf8(tag), rest);
    lemma_tag_matches(encode_utf8(tag) + rest, tag, fold);
}

/// A line ending reads CR LF.
pub proof fn lemma_line_ending_reads(rest: Seq<u8>)
    ensures
        spec_line_ending(crlf() + rest) == Parsed::Done((), 2),
        spec_space(crlf() + rest) == Parsed::<()>::Invalid,
        (crlf() + rest).len() >= 2,
        (crlf() + rest)[0] == 0x0D,
        (crlf() + rest)[1] == 0x0A,
{
}

/// The rest of the line is read back, where the text holds no CR and no LF.
pub proof fn lemma_line_text_reads(text: Seq<char>, rest: Seq<u8>)
    requires
        all_of(encode_utf8(text), ByteClass::Line),
    ensures
        spec_line_text(encode_utf8(text) + crlf() + rest) == Parsed::Done(
            text,
            encode_utf8(text).len(),
        ),
{
    let a = encode_utf8(text);
    let s = a + crlf() + rest;
    assert(s =~= a + (crlf() + rest));
    lemma_line_ending_reads(rest);
    lemma_run_of(a, crlf() + rest, ByteClass::Line);
    lemma_split(a, crlf() + rest);
    lemma_text_of_encoding(text);
    assert(s[a.len() as int] == 0x0D);
    assert(s[a.len() as int + 1] == 0x0A);
}

/// A run of text is read back, where a byte of another class follows it.
pub proof fn lemma_run_text_reads(text: Seq<char>, rest: Seq<u8>, class: ByteClass)
    requires
        all_of(encode_utf8(text), class),
        rest.len() > 0,
        !class.spec_holds(rest[0]),
    ensures
        spec_run_text(encode_utf8(text) + rest, class) == Parsed::Done(
            text,
            encode_utf8(text).len(),
        ),
        text.len() > 0 ==> spec_word(encode_utf8(text) + rest, class) == Parsed::Done(
            text,
            encode_utf8(text).len(),
        ),
{
    let a = encode_utf8(text);
    lemma_run_of(a, rest, class);
    lemma_split(a, rest);
    lemma_text_of_encoding(text);
    if text.len() > 0 {
        if a.len() == 0 {
            encode_utf8_decode_utf8(text);
            assert(a =~= Seq::<u8>::empty());
            assert(decode_utf8(a).len() == 0);
        }
    }
}

/// A number is read back from its decimal numeral.
pub proof fn lemma_number_reads(n: u32, rest: Seq<u8>)
    requires
        rest.len() > 0,
        !ByteClass::Digit.spec_holds(rest[0]),
    ensures
        spec_number(encode_utf8(decimal(n as nat)) + rest) == Parsed::Done(
            n,
            encode_utf8(decimal(n as nat)).len(),
        ),
        encode_utf8(decimal(n as nat)).len() > 0,
{
    let a = encode_utf8(decimal(n as nat));
    lemma_decimal_digits(n as nat);
    lemma_encode_ascii(decimal(n as nat));
    lemma_decimal_value(n as nat);
    assert(all_of(a, ByteClass::Digit)) by {
        assert forall|i: int| 0 <= i < a.len() implies ByteClass::Digit.spec_holds(
            #[trigger] a[i],
        ) by {
            assert(a[i] == decimal(n as nat)[i] as u8);
        }
    }
    lemma_run_of(a, rest, ByteClass::Digit);
    lemma_split(a, rest);
}

/// One space.
pub open spec fn sp() -> Seq<u8> {
    seq![0x20u8]
}

/// A keyword reads itself, whatever follows it.
pub proof fn lemma_keyword_reads(keyword: Seq<char>, rest: Seq<u8>)
    ensures
        spec_tag_no_case(encode_utf8(keyword) + rest, keyword) == Parsed::Done(
            (),
            encode_utf8(keyword).len(),
        ),
        (encode_utf8(keyword) + rest).skip(encode_utf8(keyword).len() as int) == rest,
        (encode_utf8(keyword) + rest).len() == encode_utf8(keyword).len() + rest.len(),
{
    lemma_tag_reads(keyword, rest, true);
    lemma_split(encode_utf8(keyword), rest);
}

/// A keyword and a space read themselves, whatever follows them.
pub proof fn lemma_keyword_space_reads(keyword: Seq<char>, rest: Seq<u8>)
    ensures
        spec_keyword_space(encode_utf8(keyword) + sp() + rest, keyword) == Parsed::Done(
            (),
            encode_utf8(keyword).len() + 1,
        ),
        (encode_utf8(keyword) + sp() + rest).skip(encode_utf8(keyword).len() as int + 1) == rest,
        (encode_utf8(keyword) + sp() + rest).len() == encode_utf8(keyword).len() + 1 + rest.len(),
{
    let k = encode_utf8(keyword);
    let s = k + sp() + rest;
    assert(s =~= k + (sp() + rest));
    lemma_keyword_reads(keyword, sp() + rest);
    assert((sp() + rest)[0] == 0x20);
    assert((sp() + rest).skip(1) =~= rest);
    assert(s.skip(k.len() as int + 1) =~= rest);
}

/// A keyword before a line ending reads itself, and no space follows it.
pub proof fn lemma_bare_keyword_reads(keyword: Seq<char>)
    ensures
        spec_tag_no_case(encode_utf8(keyword) + crlf(), keyword) == Parsed::Done(
            (),
            encode_utf8(keyword).len(),
        ),
        (encode_utf8(keyword) + crlf()).skip(encode_utf8(keyword).len() as int) == crlf(),
        (encode_utf8(keyword) + crlf()).len() == encode_utf8(keyword).len() + 2,
        spec_keyword_space(encode_utf8(keyword) + crlf(), keyword) == Parsed::<()>::Invalid,
        spec_space(crlf()) == Parsed::<()>::Invalid,
        spec_line_ending(crlf()) == Parsed::Done((), 2),
{
    lemma_keyword_reads(keyword, crlf());
}

/// A space and a number are read back before a byte that is no digit.
pub proof fn lemma_space_number_reads(n: u32, rest: Seq<u8>)
    requires
        rest.len() > 0,
        !ByteClass::Digit.spec_holds(rest[0]),
    ensures
        ({
            let d = encode_utf8(decimal(n as nat));
            let x = sp() + d + rest;
            &&& crate::parse::command::spec_space_number(x) == Parsed::Done(n, 1 + d.len())
            &&& x.skip(1 + d.len() as int) == rest
            &&& x.len() == 1 + d.len() + rest.len()
            &&& x.len() > 0
            &&& !ByteClass::Digit.spec_holds(x[0])
        }),
{
    let d = encode_utf8(decimal(n as nat));
    let x = sp() + d + rest;
    assert(x[0] == 0x20);
    assert(x.skip(1) =~= d + rest);
    lemma_number_reads(n, rest);
    lemma_split(d, rest);
    assert(x.skip(1 + d.len() as int) =~= (d + rest).skip(d.len() as int));
}

/// A keyword, a space and a number are read back before a byte that is
/// no digit.
pub proof fn lemma_keyword_number_reads(keyword: Seq<char>, number: u32, rest: Seq<u8>)
    requires
        rest.len() > 0,
        !ByteClass::Digit.spec_holds(rest[0]),
    ensures
        ({
            let s = encode_utf8(keyword) + sp() + encode_utf8(decimal(number as nat)) + rest;
            let n = encode_utf8(keyword).len() + 1 + encode_utf8(decimal(number as nat)).len();
            &&& s.len() == n + rest.len()
            &&& s.skip(n as int) == rest
            &&& crate::parse::command::spec_keyword_number(s, keyword) == Parsed::Done(number, n)
            &&& crate::parse::command::spec_keyword_optional_number(s, keyword) == Parsed::Done(
                Some(number),
                n,
            )
        }),
{
    let k = encode_utf8(keyword);
    let d = encode_utf8(decimal(number as nat));
    let s = k + sp() + d + rest;
    let after = sp() + d + rest;
    assert(s =~= k + sp() + (d + rest));
    lemma_keyword_space_reads(keyword, d + rest);
    lemma_number_reads(number, rest);
    lemma_split(d, rest);
    assert(s.skip((k.len() + 1 + d.len()) as int) =~= (d + rest).skip(d.len() as int));
    assert(s =~= k + after);
    lemma_keyword_reads(keyword, after);
    lemma_space_number_reads(number, rest);
}

/// The wire form of a line without operands.
pub proof fn lemma_wire_of_keyword(keyword: Seq<char>)
    ensures
        encode_utf8(keyword + "\r\n"@) == encode_utf8(keyword) + crlf(),
{
    reveal_strlit("\r\n");
    lemma_literal("\r\n"@);
    assert(encode_utf8("\r\n"@) =~= crlf());
    lemma_encode_concat(keyword, "\r\n"@);
}

/// The wire form of a keyword and one operand.
pub proof fn lemma_wire_of_operand(keyword: Seq<char>, operand: Seq<char>)
    ensures
        encode_utf8(keyword + " "@ + operand + "\r\n"@) == encode_utf8(keyword) + sp()
            + encode_utf8(operand) + crlf(),
{
    reveal_strlit(" ");
    lemma_literal(" "@);
    assert(encode_utf8(" "@) =~= sp());
    lemma_wire_of_keyword(keyword + " "@ + operand);
    lemma_encode_concat(keyword + " "@, operand);
    lemma_encode_concat(keyword, " "@);
}

/// The wire form of a keyword and two operands.
pub proof fn lemma_wire_of_operands(keyword: Seq<char>, first: Seq<char>, second: Seq<char>)
    ensures
        encode_utf8(keyword + " "@ + first + " "@ + second + "\r\n"@) == encode_utf8(keyword)
            + sp() + encode_utf8(first) + (sp() + encode_utf8(second) + crlf()),
{
    reveal_strlit(" ");
    lemma_literal(" "@);
    assert(encode_utf8(" "@) =~= sp());
    lemma_wire_of_keyword(keyword + " "@ + first + " "@ + second);
    lemma_encode_concat(keyword + " "@ + first + " "@, second);
    lemma_encode_concat(keyword + " "@ + first, " "@);
    lemma_encode_concat(keyword + " "@, first);
    lemma_encode_concat(keyword, " "@);
    assert(encode_utf8(keyword + " "@ + first + " "@ + second + "\r\n"@) =~= encode_utf8(keyword)
        + sp() + encode_utf8(first) + (sp() + encode_utf8(second) + crlf()));
}

// ----- the keywords of the verbs -----
/// The first three bytes, in lower case: enough to tell the verbs apart.
pub open spec fn signature(bytes: Seq<u8>) -> (u8, u8, u8) {
    (
        crate::parse::charset::spec_lowercase(bytes[0]),
        crate::parse::charset::spec_lowercase(bytes[1]),
        crate::parse::charset::spec_lowercase(bytes[2]),
    )
}

/// The input begins as the keyword does, as far as the first three bytes go.
pub open spec fn begins_like(s: Seq<u8>, keyword: Seq<char>) -> bool {
    s.len() >= 3 && encode_utf8(keyword).len() >= 3 && signature(s) == signature(
        encode_utf8(keyword),
    )
}

/// An input that begins like another keyword is refused.
pub proof fn lemma_signature_rejects(s: Seq<u8>, keyword: Seq<char>)
    requires
        s.len() >= 3,
        encode_utf8(keyword).len() >= 3,
    ensures
        signature(s) != signature(encode_utf8(keyword)) ==> spec_tag_no_case(s, keyword)
            == Parsed::<()>::Invalid,
{
    let k = encode_utf8(keyword);
    if signature(s) != signature(k) {
        if !same_byte(s[0], k[0], true) {
            lemma_tag_rejects(s, keyword, true, 0);
        } else if !same_byte(s[1], k[1], true) {
            lemma_tag_rejects(s, keyword, true, 1);
        } else {
            lemma_tag_rejects(s, keyword, true, 2);
        }
    }
}

/// The bytes of an ASCII literal.
pub proof fn lemma_literal(text: Seq<char>)
    requires
        is_ascii_chars(text),
    ensures
        encode_utf8(text) == Seq::new(text.len(), |i: int| text[i] as u8),
{
    lemma_encode_ascii(text);
    assert(encode_utf8(text) =~= Seq::new(text.len(), |i: int| text[i] as u8));
}

/// A run is not changed by what follows it, where what follows begins
/// with a byte of another class.
pub proof fn lemma_run_len_append(a: Seq<u8>, rest: Seq<u8>, class: ByteClass)
    requires
        rest.len() > 0 ==> !class.spec_holds(rest[0]),
    ensures
        run_len(a + rest, class) == run_len(a, class),
        run_len(a, class) <= a.len(),
{
    let n = run_len(a, class);
    let s = a + rest;
    lemma_run_end(a, class, 0);
    assert forall|i: int| 0 <= i < n implies class.spec_holds(#[trigger] s[i]) by {
        assert(s[i] == a[i]);
    }
    if n < a.len() {
        assert(s[n as int] == a[n as int]);
    } else if n < s.len() {
        assert(s[n as int] == rest[0]);
    }
    lemma_run_end_is(s, class, 0, n);
}

} // verus!
