//! The decoded text of a line is no longer than the line.
//!
//! Every byte that the parser gathers in a buffer stands for at least one
//! byte of the line: a plain byte for itself, an escape for two bytes or
//! more. So the buffers never hold more than the longest line that was read.

use vstd::prelude::*;
use vstd::utf8::{decode_utf8_encode_utf8, encode_utf8, valid_utf8};
use crate::ascii::{BACKSLASH, GREATER, QUOTE};
use crate::grammar::{
    after_blanks, blank_node, ends_line, escape, iri_body, iri_plain, label_end, lang_tag,
    lemma_after_line, lemma_after_line_skips_blanks, lemma_escape_in_input,
    lemma_hex_run_advances, lemma_label_end_in_input, lemma_string_body_in_input,
    lemma_tag_end_in_input, lemma_terms_advance, literal, named_node, object, quoted, statement,
    statement_from_object, statement_from_predicate, string_body, string_plain, subject, Parsed,
};
use crate::model::{NamedOrBlankNodeView, TripleView};

verus! {

/// The number of bytes that the text of a triple takes in the buffers of
/// the parser: the subject, the predicate, the object, and the language tag
/// or datatype of the object, each as UTF-8.
pub open spec fn buffered_len(t: TripleView) -> nat {
    encode_utf8(t.subject.text()).len() + encode_utf8(t.predicate).len() + encode_utf8(
        t.object.text(),
    ).len() + encode_utf8(t.object.annotation()).len()
}

proof fn lemma_escape_size(s: Seq<u8>, i: int)
    requires
        0 <= i,
    ensures
        escape(s, i) matches Parsed::Done { value, next } ==> value.len() <= next - i,
{
    lemma_hex_run_advances(s, i + 1, 4, 0);
    lemma_hex_run_advances(s, i + 1, 8, 0);
}

proof fn lemma_iri_body_size(s: Seq<u8>, j: int, acc: Seq<u8>)
    requires
        0 <= j <= s.len(),
    ensures
        iri_body(s, j, acc) matches Parsed::Done { value, next } ==> value.len() + 1 <= acc.len()
            + next - j,
    decreases s.len() - j,
{
    if j < s.len() {
        if s[j] == GREATER {
        } else if s[j] == BACKSLASH {
            lemma_escape_size(s, j + 1);
            lemma_escape_in_input(s, j + 1);
            match escape(s, j + 1) {
                Parsed::Done { value, next } => lemma_iri_body_size(s, next, acc + value),
                Parsed::Failed { kind, at } => {},
            }
        } else if iri_plain(s[j]) {
            lemma_iri_body_size(s, j + 1, acc.push(s[j]));
        }
    }
}

proof fn lemma_string_body_size(s: Seq<u8>, j: int, acc: Seq<u8>)
    requires
        0 <= j <= s.len(),
    ensures
        string_body(s, j, acc) matches Parsed::Done { value, next } ==> value.len() + 1
            <= acc.len() + next - j,
    decreases s.len() - j,
{
    if j < s.len() {
        if s[j] == QUOTE {
        } else if s[j] == BACKSLASH {
            lemma_escape_size(s, j + 1);
            lemma_escape_in_input(s, j + 1);
            match escape(s, j + 1) {
                Parsed::Done { value, next } => lemma_string_body_size(s, next, acc + value),
                Parsed::Failed { kind, at } => {},
            }
        } else if string_plain(s[j]) {
            lemma_string_body_size(s, j + 1, acc.push(s[j]));
        }
    }
}

/// The text of an identifier, as UTF-8, is shorter than what spells it.
pub proof fn lemma_named_node_size(s: Seq<u8>, i: int)
    requires
        0 <= i <= s.len(),
    ensures
        named_node(s, i) matches Parsed::Done { value, next } ==> encode_utf8(value).len() + 2
            <= next - i,
{
    if i < s.len() {
        lemma_iri_body_size(s, i + 1, Seq::empty());
        match iri_body(s, i + 1, Seq::empty()) {
            Parsed::Done { value, next } => {
                if valid_utf8(value) {
                    decode_utf8_encode_utf8(value);
                }
            },
            Parsed::Failed { kind, at } => {},
        }
    }
}

/// The label of a blank node, as UTF-8, is shorter than what spells it.
pub proof fn lemma_blank_node_size(s: Seq<u8>, i: int)
    requires
        0 <= i <= s.len(),
    ensures
        blank_node(s, i) matches Parsed::Done { value, next } ==> encode_utf8(value).len() + 2
            <= next - i,
{
    if i + 2 < s.len() {
        lemma_label_end_in_input(s, i + 3);
        let bytes = s.subrange(i + 2, label_end(s, i + 3));
        if valid_utf8(bytes) {
            decode_utf8_encode_utf8(bytes);
        }
    }
}

proof fn lemma_lang_tag_size(s: Seq<u8>, i: int)
    requires
        0 <= i <= s.len(),
    ensures
        lang_tag(s, i) matches Parsed::Done { value, next } ==> value.len() + 1 <= next - i,
{
    if i + 1 < s.len() {
        lemma_tag_end_in_input(s, i + 2);
    }
}

/// The text of a literal and its language tag or datatype, as UTF-8, are
/// together shorter than what spells the literal.
pub proof fn lemma_literal_size(s: Seq<u8>, i: int)
    requires
        0 <= i <= s.len(),
    ensures
        literal(s, i) matches Parsed::Done { value, next } ==> encode_utf8(value.value()).len()
            + encode_utf8(value.annotation()).len() + 2 <= next - i,
{
    if i < s.len() {
        lemma_string_body_size(s, i + 1, Seq::empty());
        lemma_string_body_in_input(s, i + 1, Seq::empty());
        match quoted(s, i) {
            Parsed::Done { value: bytes, next } => {
                if valid_utf8(bytes) {
                    decode_utf8_encode_utf8(bytes);
                }
                lemma_after_line_skips_blanks(s, next);
                let j = after_blanks(s, next);
                lemma_lang_tag_size(s, j);
                match lang_tag(s, j) {
                    Parsed::Done { value: tag, next: k } => {
                        if valid_utf8(tag) {
                            decode_utf8_encode_utf8(tag);
                        }
                    },
                    Parsed::Failed { kind, at } => {},
                }
                if j + 1 < s.len() {
                    lemma_after_line_skips_blanks(s, j + 2);
                    lemma_named_node_size(s, after_blanks(s, j + 2));
                }
                assert(encode_utf8(Seq::<char>::empty()).len() == 0);
            },
            Parsed::Failed { kind, at } => {},
        }
    }
}

proof fn lemma_from_object_size(
    s: Seq<u8>,
    subject: NamedOrBlankNodeView,
    predicate: Seq<char>,
    j: int,
)
    requires
        0 <= j <= s.len(),
    ensures
        statement_from_object(s, subject, predicate, j) matches Parsed::Done {
            value: Some(t),
            next,
        } ==> t.subject == subject && t.predicate == predicate && encode_utf8(
            t.object.text(),
        ).len() + encode_utf8(t.object.annotation()).len() <= next - j,
{
    lemma_after_line_skips_blanks(s, j);
    let o = after_blanks(s, j);
    lemma_named_node_size(s, o);
    lemma_blank_node_size(s, o);
    lemma_literal_size(s, o);
    lemma_terms_advance(s, o);
    assert(encode_utf8(Seq::<char>::empty()).len() == 0);
    match object(s, o) {
        Parsed::Done { value, next } => {
            lemma_after_line_skips_blanks(s, next);
            let d = after_blanks(s, next);
            if d < s.len() {
                lemma_after_line_skips_blanks(s, d + 1);
                lemma_after_line(s, after_blanks(s, d + 1));
            }
        },
        Parsed::Failed { kind, at } => {},
    }
}

proof fn lemma_from_predicate_size(s: Seq<u8>, subject: NamedOrBlankNodeView, j: int)
    requires
        0 <= j <= s.len(),
    ensures
        statement_from_predicate(s, subject, j) matches Parsed::Done { value: Some(t), next }
            ==> t.subject == subject && encode_utf8(t.predicate).len() + encode_utf8(
            t.object.text(),
        ).len() + encode_utf8(t.object.annotation()).len() <= next - j,
{
    lemma_after_line_skips_blanks(s, j);
    let p = after_blanks(s, j);
    lemma_named_node_size(s, p);
    lemma_terms_advance(s, p);
    match named_node(s, p) {
        Parsed::Done { value, next } => {
            lemma_from_object_size(s, subject, value, next);
        },
        Parsed::Failed { kind, at } => {},
    }
}

/// What the buffers hold after a line is shorter than the line: the text of
/// the triple that a line states takes fewer bytes than the line.
pub proof fn lemma_buffers_fit_line(s: Seq<u8>, i: int)
    requires
        0 <= i <= s.len(),
    ensures
        statement(s, i) matches Parsed::Done { value: Some(t), next } ==> buffered_len(t) < next
            - i,
{
    lemma_after_line_skips_blanks(s, i);
    let a = after_blanks(s, i);
    if !ends_line(s, a) {
        lemma_named_node_size(s, a);
        lemma_blank_node_size(s, a);
        lemma_terms_advance(s, a);
        match subject(s, a) {
            Parsed::Done { value, next } => {
                lemma_from_predicate_size(s, value, next);
            },
            Parsed::Failed { kind, at } => {},
        }
    }
}

} // verus!
