//! A statement is read from its line alone.
//!
//! What the grammar finds on a line does not depend on what stands before
//! or behind the line: reading a line that was cut out of the input gives
//! what reading it in place gives, with every position counted from the
//! start of the line. So an input may be handed to the parser line by line.

use vstd::prelude::*;
use crate::ascii::{BACKSLASH, FULL_STOP, GREATER, LINE_FEED, QUOTE};
use crate::grammar::{
    after_blanks, after_line, blank_node, ends_line, escape, hex_run, hex_value, iri_body,
    iri_plain, is_blank, label_byte, label_end, lang_tag, lemma_hex_run_advances, literal,
    named_node, object, quoted, statement, statement_end, statement_from_object,
    statement_from_predicate, string_body, string_plain, subject, tag_byte, tag_end, Parsed,
};
use crate::model::NamedOrBlankNodeView;
use crate::reader::{byte_at, line_feeds};

verus! {

/// What the grammar finds, with its position counted from `by` on.
pub open spec fn shifted<T>(p: Parsed<T>, by: int) -> Parsed<T> {
    match p {
        Parsed::Done { value, next } => Parsed::Done { value, next: next - by },
        Parsed::Failed { kind, at } => Parsed::Failed { kind, at: at - by },
    }
}

/// Whether what the grammar finds ends, or fails, between `from` and
/// `limit`.
pub open spec fn within<T>(p: Parsed<T>, from: int, limit: int) -> bool {
    match p {
        Parsed::Done { value, next } => from <= next <= limit,
        Parsed::Failed { kind, at } => from <= at <= limit,
    }
}

/// The line of `s` that holds position `i`, from `i` on, with its line feed.
pub open spec fn line_from(s: Seq<u8>, i: int) -> Seq<u8> {
    s.subrange(i, after_line(s, i))
}

/// Whether `c` is the rest of a line of `s` from `i` on, and `l` the
/// position at which the line stops: that of its line feed, or the end of
/// the input.
pub open spec fn frames(s: Seq<u8>, i: int, l: int, c: Seq<u8>) -> bool {
    &&& 0 <= i <= l <= s.len()
    &&& forall|k: int| i <= k < l ==> s[k] != LINE_FEED
    &&& (l == s.len() || s[l] == LINE_FEED)
    &&& c == s.subrange(
        i,
        if l < s.len() {
            l + 1
        } else {
            l
        },
    )
}

/// The position at which the line that holds `i` stops.
pub open spec fn line_stop(s: Seq<u8>, i: int) -> int
    decreases s.len() - i,
{
    if 0 <= i < s.len() && s[i] != LINE_FEED {
        line_stop(s, i + 1)
    } else {
        i
    }
}

proof fn lemma_line_stop(s: Seq<u8>, i: int)
    requires
        0 <= i <= s.len(),
    ensures
        frames(s, i, line_stop(s, i), line_from(s, i)),
    decreases s.len() - i,
{
    if i < s.len() && s[i] != LINE_FEED {
        lemma_line_stop(s, i + 1);
        let l = line_stop(s, i);
        assert forall|k: int| i <= k < l implies s[k] != LINE_FEED by {}
    }
    lemma_after_line_is_stop(s, i, line_stop(s, i), i);
}

proof fn lemma_after_line_is_stop(s: Seq<u8>, i: int, l: int, j: int)
    requires
        0 <= i <= j <= l <= s.len(),
        forall|k: int| i <= k < l ==> s[k] != LINE_FEED,
        l == s.len() || s[l] == LINE_FEED,
    ensures
        after_line(s, j) == if l < s.len() {
            l + 1
        } else {
            l
        },
    decreases l - j,
{
    if j < l {
        lemma_after_line_is_stop(s, i, l, j + 1);
    }
}

proof fn lemma_bytes(s: Seq<u8>, i: int, l: int, c: Seq<u8>, k: int)
    requires
        frames(s, i, l, c),
        i <= k <= l,
    ensures
        byte_at(c, k - i) == byte_at(s, k),
        k < l ==> s[k] != LINE_FEED && c[k - i] == s[k] && k - i < c.len(),
        k == l ==> byte_at(s, k) == None::<u8> || byte_at(s, k) == Some(LINE_FEED),
{
}

proof fn lemma_after_blanks_local(s: Seq<u8>, i: int, l: int, c: Seq<u8>, j: int)
    requires
        frames(s, i, l, c),
        i <= j <= l,
    ensures
        after_blanks(c, j - i) == after_blanks(s, j) - i,
        j <= after_blanks(s, j) <= l,
    decreases l - j,
{
    lemma_bytes(s, i, l, c, j);
    if j < l && is_blank(s[j]) {
        lemma_after_blanks_local(s, i, l, c, j + 1);
    }
}

proof fn lemma_after_line_local(s: Seq<u8>, i: int, l: int, c: Seq<u8>, j: int)
    requires
        frames(s, i, l, c),
        i <= j <= l,
    ensures
        after_line(c, j - i) == after_line(s, j) - i,
    decreases l - j,
{
    lemma_bytes(s, i, l, c, j);
    if j < l {
        lemma_after_line_local(s, i, l, c, j + 1);
    }
}

proof fn lemma_hex_run_local(s: Seq<u8>, i: int, l: int, c: Seq<u8>, j: int, n: nat, acc: nat)
    requires
        frames(s, i, l, c),
        i <= j <= l,
    ensures
        hex_run(c, j - i, n, acc) == shifted(hex_run(s, j, n, acc), i),
        within(hex_run(s, j, n, acc), j, l),
    decreases n,
{
    lemma_bytes(s, i, l, c, j);
    if n > 0 && j < l {
        match hex_value(s[j]) {
            Some(d) => lemma_hex_run_local(s, i, l, c, j + 1, (n - 1) as nat, acc * 16 + d),
            None => {},
        }
    }
}

proof fn lemma_escape_local(s: Seq<u8>, i: int, l: int, c: Seq<u8>, j: int)
    requires
        frames(s, i, l, c),
        i <= j <= l,
    ensures
        escape(c, j - i) == shifted(escape(s, j), i),
        within(escape(s, j), j, l),
        escape(s, j) matches Parsed::Done { value, next } ==> j < next,
{
    lemma_bytes(s, i, l, c, j);
    if j < l {
        lemma_hex_run_local(s, i, l, c, j + 1, 4, 0);
        lemma_hex_run_local(s, i, l, c, j + 1, 8, 0);
        lemma_hex_run_advances(s, j + 1, 4, 0);
        lemma_hex_run_advances(s, j + 1, 8, 0);
    }
}

proof fn lemma_iri_body_local(s: Seq<u8>, i: int, l: int, c: Seq<u8>, j: int, acc: Seq<u8>)
    requires
        frames(s, i, l, c),
        i <= j <= l,
    ensures
        iri_body(c, j - i, acc) == shifted(iri_body(s, j, acc), i),
        within(iri_body(s, j, acc), j, l),
    decreases l - j,
{
    lemma_bytes(s, i, l, c, j);
    if j < l {
        if s[j] == GREATER {
        } else if s[j] == BACKSLASH {
            lemma_escape_local(s, i, l, c, j + 1);
            match escape(s, j + 1) {
                Parsed::Done { value, next } => lemma_iri_body_local(s, i, l, c, next, acc + value),
                Parsed::Failed { kind, at } => {},
            }
        } else if iri_plain(s[j]) {
            lemma_iri_body_local(s, i, l, c, j + 1, acc.push(s[j]));
        }
    }
}

proof fn lemma_string_body_local(s: Seq<u8>, i: int, l: int, c: Seq<u8>, j: int, acc: Seq<u8>)
    requires
        frames(s, i, l, c),
        i <= j <= l,
    ensures
        string_body(c, j - i, acc) == shifted(string_body(s, j, acc), i),
        within(string_body(s, j, acc), j, l),
    decreases l - j,
{
    lemma_bytes(s, i, l, c, j);
    if j < l {
        if s[j] == QUOTE {
        } else if s[j] == BACKSLASH {
            lemma_escape_local(s, i, l, c, j + 1);
            match escape(s, j + 1) {
                Parsed::Done { value, next } => lemma_string_body_local(
                    s,
                    i,
                    l,
                    c,
                    next,
                    acc + value,
                ),
                Parsed::Failed { kind, at } => {},
            }
        } else if string_plain(s[j]) {
            lemma_string_body_local(s, i, l, c, j + 1, acc.push(s[j]));
        }
    }
}

proof fn lemma_label_end_local(s: Seq<u8>, i: int, l: int, c: Seq<u8>, j: int)
    requires
        frames(s, i, l, c),
        i <= j <= l,
    ensures
        label_end(c, j - i) == label_end(s, j) - i,
        j <= label_end(s, j) <= l,
    decreases l - j,
{
    lemma_bytes(s, i, l, c, j);
    if j < l {
        lemma_bytes(s, i, l, c, j + 1);
        if label_byte(s[j]) || (s[j] == FULL_STOP && j + 1 < s.len() && label_byte(
            s[j + 1],
        )) {
            lemma_label_end_local(s, i, l, c, j + 1);
        }
    }
}

proof fn lemma_tag_end_local(s: Seq<u8>, i: int, l: int, c: Seq<u8>, j: int)
    requires
        frames(s, i, l, c),
        i <= j <= l,
    ensures
        tag_end(c, j - i) == tag_end(s, j) - i,
        j <= tag_end(s, j) <= l,
    decreases l - j,
{
    lemma_bytes(s, i, l, c, j);
    if j < l && tag_byte(s[j]) {
        lemma_tag_end_local(s, i, l, c, j + 1);
    }
}

proof fn lemma_named_node_local(s: Seq<u8>, i: int, l: int, c: Seq<u8>, j: int)
    requires
        frames(s, i, l, c),
        i <= j <= l,
    ensures
        named_node(c, j - i) == shifted(named_node(s, j), i),
        within(named_node(s, j), j, l),
{
    lemma_bytes(s, i, l, c, j);
    if j < l {
        lemma_iri_body_local(s, i, l, c, j + 1, Seq::empty());
    }
}

proof fn lemma_blank_node_local(s: Seq<u8>, i: int, l: int, c: Seq<u8>, j: int)
    requires
        frames(s, i, l, c),
        i <= j <= l,
    ensures
        blank_node(c, j - i) == shifted(blank_node(s, j), i),
        within(blank_node(s, j), j, l),
{
    lemma_bytes(s, i, l, c, j);
    if j < l {
        lemma_bytes(s, i, l, c, j + 1);
        if j + 1 < l {
            lemma_bytes(s, i, l, c, j + 2);
            if j + 2 < l {
                lemma_label_end_local(s, i, l, c, j + 3);
                let end = label_end(s, j + 3);
                assert(c.subrange(j + 2 - i, end - i) =~= s.subrange(j + 2, end));
            }
        }
    }
}

proof fn lemma_lang_tag_local(s: Seq<u8>, i: int, l: int, c: Seq<u8>, j: int)
    requires
        frames(s, i, l, c),
        i <= j <= l,
    ensures
        lang_tag(c, j - i) == shifted(lang_tag(s, j), i),
        within(lang_tag(s, j), j, l),
{
    lemma_bytes(s, i, l, c, j);
    if j < l {
        lemma_bytes(s, i, l, c, j + 1);
        if j + 1 < l {
            lemma_tag_end_local(s, i, l, c, j + 2);
            let end = tag_end(s, j + 2);
            assert(c.subrange(j + 1 - i, end - i) =~= s.subrange(j + 1, end));
        }
    }
}

proof fn lemma_literal_local(s: Seq<u8>, i: int, l: int, c: Seq<u8>, j: int)
    requires
        frames(s, i, l, c),
        i <= j <= l,
    ensures
        literal(c, j - i) == shifted(literal(s, j), i),
        within(literal(s, j), j, l),
{
    lemma_bytes(s, i, l, c, j);
    if j < l {
        lemma_string_body_local(s, i, l, c, j + 1, Seq::empty());
        match quoted(s, j) {
            Parsed::Done { value, next } => {
                lemma_after_blanks_local(s, i, l, c, next);
                let a = after_blanks(s, next);
                lemma_bytes(s, i, l, c, a);
                lemma_lang_tag_local(s, i, l, c, a);
                if a < l {
                    lemma_bytes(s, i, l, c, a + 1);
                    if a + 1 < l {
                        lemma_after_blanks_local(s, i, l, c, a + 2);
                        lemma_named_node_local(s, i, l, c, after_blanks(s, a + 2));
                    }
                }
            },
            Parsed::Failed { kind, at } => {},
        }
    }
}

proof fn lemma_terms_local(s: Seq<u8>, i: int, l: int, c: Seq<u8>, j: int)
    requires
        frames(s, i, l, c),
        i <= j <= l,
    ensures
        subject(c, j - i) == shifted(subject(s, j), i),
        within(subject(s, j), j, l),
        object(c, j - i) == shifted(object(s, j), i),
        within(object(s, j), j, l),
{
    lemma_bytes(s, i, l, c, j);
    lemma_named_node_local(s, i, l, c, j);
    lemma_blank_node_local(s, i, l, c, j);
    lemma_literal_local(s, i, l, c, j);
}

proof fn lemma_statement_end_local(s: Seq<u8>, i: int, l: int, c: Seq<u8>, j: int)
    requires
        frames(s, i, l, c),
        i <= j <= l,
    ensures
        statement_end(c, j - i) == shifted(statement_end(s, j), i),
{
    lemma_after_blanks_local(s, i, l, c, j);
    let d = after_blanks(s, j);
    lemma_bytes(s, i, l, c, d);
    if d < l {
        lemma_after_blanks_local(s, i, l, c, d + 1);
        let e = after_blanks(s, d + 1);
        lemma_bytes(s, i, l, c, e);
        lemma_after_line_local(s, i, l, c, e);
    }
}

proof fn lemma_from_object_local(
    s: Seq<u8>,
    i: int,
    l: int,
    c: Seq<u8>,
    subject: NamedOrBlankNodeView,
    predicate: Seq<char>,
    j: int,
)
    requires
        frames(s, i, l, c),
        i <= j <= l,
    ensures
        statement_from_object(c, subject, predicate, j - i) == shifted(
            statement_from_object(s, subject, predicate, j),
            i,
        ),
{
    lemma_after_blanks_local(s, i, l, c, j);
    let o = after_blanks(s, j);
    lemma_terms_local(s, i, l, c, o);
    match object(s, o) {
        Parsed::Done { value, next } => {
            lemma_statement_end_local(s, i, l, c, next);
        },
        Parsed::Failed { kind, at } => {},
    }
}

proof fn lemma_from_predicate_local(
    s: Seq<u8>,
    i: int,
    l: int,
    c: Seq<u8>,
    subject: NamedOrBlankNodeView,
    j: int,
)
    requires
        frames(s, i, l, c),
        i <= j <= l,
    ensures
        statement_from_predicate(c, subject, j - i) == shifted(
            statement_from_predicate(s, subject, j),
            i,
        ),
{
    lemma_after_blanks_local(s, i, l, c, j);
    let p = after_blanks(s, j);
    lemma_named_node_local(s, i, l, c, p);
    match named_node(s, p) {
        Parsed::Done { value, next } => {
            lemma_from_object_local(s, i, l, c, subject, value, next);
        },
        Parsed::Failed { kind, at } => {},
    }
}

/// The lines of a part of the input are counted from the line on which the
/// part begins: the line feeds before a position are those before the part
/// and those of the part before the position.
pub proof fn lemma_line_feeds_of_part(s: Seq<u8>, i: int, e: int, k: int)
    requires
        0 <= i <= e <= s.len(),
        0 <= k <= e - i,
    ensures
        line_feeds(s, i + k) == line_feeds(s, i) + line_feeds(s.subrange(i, e), k),
    decreases k,
{
    if k > 0 {
        lemma_line_feeds_of_part(s, i, e, k - 1);
        assert(s.subrange(i, e)[k - 1] == s[i + k - 1]);
    }
}

/// Reading the line that begins at `i`, cut out of the input, gives what
/// reading it in place gives, with every position counted from the start of
/// the line.
pub proof fn lemma_statement_is_local(s: Seq<u8>, i: int)
    requires
        0 <= i <= s.len(),
    ensures
        statement(line_from(s, i), 0) == shifted(statement(s, i), i),
{
    let l = line_stop(s, i);
    let c = line_from(s, i);
    lemma_line_stop(s, i);
    lemma_after_blanks_local(s, i, l, c, i);
    let a = after_blanks(s, i);
    lemma_bytes(s, i, l, c, a);
    lemma_after_line_local(s, i, l, c, a);
    if !ends_line(s, a) {
        lemma_terms_local(s, i, l, c, a);
        match subject(s, a) {
            Parsed::Done { value, next } => {
                lemma_from_predicate_local(s, i, l, c, value, next);
            },
            Parsed::Failed { kind, at } => {},
        }
    }
}

} // verus!
