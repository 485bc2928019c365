//! What the serializer writes of a term, read back by the parser.
//!
//! The serializer escapes the five special characters of a document; the
//! parser decodes the escapes of its own grammar, which begin with a
//! backslash. Text that holds none of either, and nothing that would end
//! the term, passes through both unchanged.

use vstd::prelude::*;
use vstd::string::StringSliceAdditionalSpecFns;
use vstd::utf8::{encode_utf8, is_ascii_chars_encode_utf8};
use crate::ascii::{
    AMPERSAND, APOSTROPHE, AT, GREATER, LESS, LOWER_A, LOWER_G, LOWER_L, LOWER_M, LOWER_O,
    LOWER_P, LOWER_Q, LOWER_S, LOWER_T, LOWER_U, QUOTE, SEMICOLON,
};
use crate::grammar::{
    iri_plain, iri_ref, is_letter, lang_tag, lemma_plain_iri, lemma_plain_string, quoted,
    string_plain, tag_byte, tag_end, Parsed,
};
use crate::writer::{attribute_bytes, escaped, escaped_byte, event_body};
use crate::xml::XmlEventView;

verus! {

/// A byte that the serializer writes as it is.
pub open spec fn xml_plain(b: u8) -> bool {
    b != LESS && b != GREATER && b != APOSTROPHE && b != AMPERSAND && b != QUOTE
}

/// Text without special characters is written as it is.
pub proof fn lemma_escaped_plain(v: Seq<u8>)
    requires
        forall|i: int| 0 <= i < v.len() ==> xml_plain(#[trigger] v[i]),
    ensures
        escaped(v) == v,
    decreases v.len(),
{
    if v.len() > 0 {
        lemma_escaped_plain(v.drop_last());
        assert(escaped_byte(v.last()) == seq![v.last()]);
        assert(v.drop_last() + seq![v.last()] =~= v);
    }
}

/// The value of a literal, as the serializer writes it, is read back
/// unchanged from between double quotes, byte for byte, where it holds no
/// special character of a document, no backslash, no line feed and no
/// carriage return.
pub proof fn lemma_value_round_trip(v: Seq<u8>)
    requires
        forall|i: int| 0 <= i < v.len() ==> xml_plain(#[trigger] v[i]) && string_plain(v[i]),
    ensures
        quoted(seq![QUOTE] + escaped(v) + seq![QUOTE], 0) == (Parsed::Done {
            value: v,
            next: v.len() as int + 2,
        }),
{
    lemma_escaped_plain(v);
    let s = seq![QUOTE] + v + seq![QUOTE];
    let k = v.len() as int + 1;
    assert forall|m: int| 0 < m < k implies string_plain(#[trigger] s[m]) by {
        assert(s[m] == v[m - 1]);
    }
    lemma_plain_string(s, 0, k);
    assert(s.subrange(1, k) =~= v);
}

/// An identifier, as the serializer writes it, is read back unchanged from
/// between angle brackets, byte for byte, where every byte of it stands for
/// itself in a document and in an identifier.
pub proof fn lemma_identifier_round_trip(v: Seq<u8>)
    requires
        forall|i: int| 0 <= i < v.len() ==> xml_plain(#[trigger] v[i]) && iri_plain(v[i]),
    ensures
        iri_ref(seq![LESS] + escaped(v) + seq![GREATER], 0) == (Parsed::Done {
            value: v,
            next: v.len() as int + 2,
        }),
{
    lemma_escaped_plain(v);
    let s = seq![LESS] + v + seq![GREATER];
    let k = v.len() as int + 1;
    assert forall|m: int| 0 < m < k implies iri_plain(#[trigger] s[m]) by {
        assert(s[m] == v[m - 1]);
    }
    lemma_plain_iri(s, 0, k);
    assert(s.subrange(1, k) =~= v);
}

proof fn lemma_tag_end(s: Seq<u8>, j: int)
    requires
        0 <= j <= s.len(),
        forall|m: int| j <= m < s.len() ==> tag_byte(#[trigger] s[m]),
    ensures
        tag_end(s, j) == s.len(),
    decreases s.len() - j,
{
    if j < s.len() {
        lemma_tag_end(s, j + 1);
    }
}

/// A language tag, as the serializer writes it, is read back unchanged from
/// behind `@`, byte for byte, where it begins with a letter and holds
/// letters, digits and hyphens only.
pub proof fn lemma_language_round_trip(v: Seq<u8>)
    requires
        v.len() > 0,
        is_letter(v[0]),
        forall|i: int| 0 <= i < v.len() ==> tag_byte(#[trigger] v[i]),
    ensures
        lang_tag(seq![AT] + escaped(v), 0) == (Parsed::Done { value: v, next: v.len() as int + 1 }),
{
    lemma_escaped_plain(v);
    let s = seq![AT] + v;
    assert(s[1] == v[0]);
    assert forall|m: int| 2 <= m < s.len() implies tag_byte(#[trigger] s[m]) by {
        assert(s[m] == v[m - 1]);
    }
    lemma_tag_end(s, 2);
    assert(s.subrange(1, s.len() as int) =~= v);
}

/// The entity that stands for a special character in a document, byte by
/// byte: `&lt;`, `&gt;`, `&apos;`, `&amp;` and `&quot;`.
pub open spec fn entity(b: u8) -> Seq<u8> {
    if b == LESS {
        seq![AMPERSAND, LOWER_L, LOWER_T, SEMICOLON]
    } else if b == GREATER {
        seq![AMPERSAND, LOWER_G, LOWER_T, SEMICOLON]
    } else if b == APOSTROPHE {
        seq![AMPERSAND, LOWER_A, LOWER_P, LOWER_O, LOWER_S, SEMICOLON]
    } else if b == AMPERSAND {
        seq![AMPERSAND, LOWER_A, LOWER_M, LOWER_P, SEMICOLON]
    } else {
        seq![AMPERSAND, LOWER_Q, LOWER_U, LOWER_O, LOWER_T, SEMICOLON]
    }
}

/// Whether `s` begins with `part`.
pub open spec fn begins_with(s: Seq<u8>, part: Seq<u8>) -> bool {
    part.len() <= s.len() && s.subrange(0, part.len() as int) == part
}

/// What a reader of the document takes the written text for: each of the
/// five entities stands for its character, and every other byte for itself.
pub open spec fn unescaped(s: Seq<u8>) -> Seq<u8>
    decreases s.len(),
{
    if s.len() == 0 {
        Seq::empty()
    } else if begins_with(s, entity(LESS)) {
        seq![LESS] + unescaped(s.skip(4))
    } else if begins_with(s, entity(GREATER)) {
        seq![GREATER] + unescaped(s.skip(4))
    } else if begins_with(s, entity(APOSTROPHE)) {
        seq![APOSTROPHE] + unescaped(s.skip(6))
    } else if begins_with(s, entity(AMPERSAND)) {
        seq![AMPERSAND] + unescaped(s.skip(5))
    } else if begins_with(s, entity(QUOTE)) {
        seq![QUOTE] + unescaped(s.skip(6))
    } else {
        seq![s[0]] + unescaped(s.skip(1))
    }
}

/// What the serializer writes for a special character is its entity.
pub proof fn lemma_escaped_byte_is_entity(b: u8)
    requires
        !xml_plain(b),
    ensures
        escaped_byte(b) == entity(b),
{
    reveal_strlit("&lt;");
    reveal_strlit("&gt;");
    reveal_strlit("&apos;");
    reveal_strlit("&amp;");
    reveal_strlit("&quot;");
    is_ascii_chars_encode_utf8("&lt;"@);
    is_ascii_chars_encode_utf8("&gt;"@);
    is_ascii_chars_encode_utf8("&apos;"@);
    is_ascii_chars_encode_utf8("&amp;"@);
    is_ascii_chars_encode_utf8("&quot;"@);
    assert(escaped_byte(b) =~= entity(b));
}

/// Escaping goes byte by byte from the front as it does from the back.
pub proof fn lemma_escaped_from_front(b: u8, v: Seq<u8>)
    ensures
        escaped(seq![b] + v) == escaped_byte(b) + escaped(v),
    decreases v.len(),
{
    let s = seq![b] + v;
    if v.len() == 0 {
        assert(s.drop_last() =~= Seq::<u8>::empty());
        assert(s.last() == b);
        assert(escaped(s.drop_last()) =~= Seq::<u8>::empty());
        assert(escaped(v) =~= Seq::<u8>::empty());
        assert(escaped(s) =~= escaped_byte(b) + escaped(v));
    } else {
        assert(s.drop_last() =~= seq![b] + v.drop_last());
        assert(s.last() == v.last());
        lemma_escaped_from_front(b, v.drop_last());
        assert(escaped(s) =~= escaped_byte(b) + escaped(v));
    }
}

/// What the serializer writes of a text is taken for that text again, byte
/// for byte, whatever the text holds: the value of a literal in the content
/// of its element, and an identifier, a language tag or a datatype in the
/// value of an attribute.
pub proof fn lemma_unescaped_escaped(v: Seq<u8>)
    ensures
        unescaped(escaped(v)) == v,
    decreases v.len(),
{
    if v.len() > 0 {
        let b = v[0];
        let rest = v.skip(1);
        assert(seq![b] + rest =~= v);
        lemma_escaped_from_front(b, rest);
        lemma_unescaped_escaped(rest);
        let s = escaped(v);
        let e = escaped_byte(b);
        assert(s == e + escaped(rest));
        if xml_plain(b) {
            assert(s[0] == b);
            assert(entity(LESS)[0] == AMPERSAND);
            assert(entity(GREATER)[0] == AMPERSAND);
            assert(entity(APOSTROPHE)[0] == AMPERSAND);
            assert(entity(AMPERSAND)[0] == AMPERSAND);
            assert(entity(QUOTE)[0] == AMPERSAND);
            lemma_begins(s, entity(LESS), 0);
            lemma_begins(s, entity(GREATER), 0);
            lemma_begins(s, entity(APOSTROPHE), 0);
            lemma_begins(s, entity(AMPERSAND), 0);
            lemma_begins(s, entity(QUOTE), 0);
            assert(s.skip(1) =~= escaped(rest));
            assert(unescaped(s) =~= v);
        } else {
            lemma_escaped_byte_is_entity(b);
            assert(s.subrange(0, e.len() as int) =~= e);
            assert(s.skip(e.len() as int) =~= escaped(rest));
            assert(s[1] == e[1]);
            assert(s[2] == e[2]);
            lemma_begins(s, entity(LESS), 1);
            lemma_begins(s, entity(GREATER), 1);
            lemma_begins(s, entity(APOSTROPHE), 1);
            lemma_begins(s, entity(APOSTROPHE), 2);
            lemma_begins(s, entity(AMPERSAND), 1);
            lemma_begins(s, entity(AMPERSAND), 2);
            lemma_begins(s, entity(QUOTE), 1);
            assert(unescaped(s) =~= v);
        }
    } else {
        assert(v =~= Seq::<u8>::empty());
    }
}

/// The content of an element is taken for the text that was given, as
/// UTF-8: a text event is written as the escaped text and nothing else.
pub proof fn lemma_text_reads_back(v: Seq<char>)
    ensures
        unescaped(event_body(XmlEventView::Text(v))) == encode_utf8(v),
{
    lemma_unescaped_escaped(encode_utf8(v));
}

/// The value of an attribute is taken for the text that was given, as
/// UTF-8: an attribute is written as a space, its key, `="`, the escaped
/// value, and `"`.
pub proof fn lemma_attribute_reads_back(key: Seq<char>, value: Seq<char>)
    ensures
        attribute_bytes(key, value) == " ".spec_bytes() + encode_utf8(key) + "=\"".spec_bytes()
            + escaped(encode_utf8(value)) + "\"".spec_bytes(),
        unescaped(escaped(encode_utf8(value))) == encode_utf8(value),
{
    lemma_unescaped_escaped(encode_utf8(value));
}

/// What begins with a part holds the bytes of the part.
proof fn lemma_begins(s: Seq<u8>, part: Seq<u8>, k: int)
    requires
        0 <= k < part.len(),
    ensures
        begins_with(s, part) ==> s[k] == part[k],
{
    if begins_with(s, part) {
        assert(s.subrange(0, part.len() as int)[k] == s[k]);
    }
}

} // verus!
