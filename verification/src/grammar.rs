//! The grammar of N-Triples, as functions on bytes.
//!
//! A statement stands on one line: a subject, a predicate, an object and a
//! full stop, with spaces and tabs between them as one likes, and a comment
//! behind them if one likes. Every function here reads the input `s` from a
//! position `i` and tells what the grammar finds there: a value and the
//! position behind it, or the kind of the violation and the position at
//! which it is found.

use vstd::prelude::*;
use vstd::utf8::{
    decode_utf8, decode_utf8_encode_utf8, encode_scalar, encode_utf8, is_scalar, valid_utf8,
};
use crate::ascii::{
    APOSTROPHE, AT, BACKSLASH, BACKSPACE, BACKTICK, BAR, CARET, CARRIAGE_RETURN, COLON, DIGIT_0,
    DIGIT_9, FORM_FEED, FULL_STOP, GREATER, HASH, HYPHEN, LEFT_BRACE, LESS, LINE_FEED, LOWER_A,
    LOWER_B, LOWER_F, LOWER_N, LOWER_R, LOWER_T, LOWER_U, LOWER_Z, PLUS, QUOTE, RIGHT_BRACE,
    SPACE, TAB, UNDERSCORE, UPPER_A, UPPER_F, UPPER_U, UPPER_Z,
};
use crate::error::TurtleErrorKind;
use crate::model::{LiteralView, NamedOrBlankNodeView, TermView, TripleView};
use crate::reader::{byte_at, unexpected_kind};

verus! {

/// What the grammar finds at a position.
pub enum Parsed<T> {
    /// A value, and the position behind what spells it.
    Done { value: T, next: int },
    /// A violation, and the position at which it is found.
    Failed { kind: TurtleErrorKind, at: int },
}

/// The violation that the byte at `at` gives.
pub open spec fn unexpected<T>(s: Seq<u8>, at: int) -> Parsed<T> {
    Parsed::Failed { kind: unexpected_kind(s, at), at }
}

/// A space or a tab.
pub open spec fn is_blank(b: u8) -> bool {
    b == SPACE || b == TAB
}

/// The first position at or after `i` that holds neither a space nor a tab.
pub open spec fn after_blanks(s: Seq<u8>, i: int) -> int
    decreases s.len() - i,
{
    if 0 <= i < s.len() && is_blank(s[i]) {
        after_blanks(s, i + 1)
    } else {
        i
    }
}

/// The position behind the first line feed at or after `i`, or the end of
/// the input where no line feed follows.
pub open spec fn after_line(s: Seq<u8>, i: int) -> int
    decreases s.len() - i,
{
    if 0 <= i < s.len() {
        if s[i] == LINE_FEED {
            i + 1
        } else {
            after_line(s, i + 1)
        }
    } else {
        i
    }
}

/// Whether nothing but a comment or the end of the line stands at `i`.
pub open spec fn ends_line(s: Seq<u8>, i: int) -> bool {
    match byte_at(s, i) {
        None => true,
        Some(b) => b == HASH || b == CARRIAGE_RETURN || b == LINE_FEED,
    }
}

/// The value of a hexadecimal digit.
pub open spec fn hex_value(b: u8) -> Option<nat> {
    if DIGIT_0 <= b <= DIGIT_9 {
        Some((b - DIGIT_0) as nat)
    } else if UPPER_A <= b <= UPPER_F {
        Some((b - UPPER_A + 10) as nat)
    } else if LOWER_A <= b <= LOWER_F {
        Some((b - LOWER_A + 10) as nat)
    } else {
        None
    }
}

/// The number that `n` hexadecimal digits from `i` on spell behind the
/// digits that gave `acc`.
pub open spec fn hex_run(s: Seq<u8>, i: int, n: nat, acc: nat) -> Parsed<nat>
    decreases n,
{
    if n == 0 {
        Parsed::Done { value: acc, next: i }
    } else {
        match byte_at(s, i) {
            Some(b) => match hex_value(b) {
                Some(d) => hex_run(s, i + 1, (n - 1) as nat, acc * 16 + d),
                None => unexpected(s, i),
            },
            None => unexpected(s, i),
        }
    }
}

/// The UTF-8 encoding of the character whose number `n` hexadecimal digits
/// from `i` on spell. A number that is no Unicode scalar value is a
/// violation, found behind the digits.
pub open spec fn code_point(s: Seq<u8>, i: int, n: nat) -> Parsed<Seq<u8>> {
    match hex_run(s, i, n, 0) {
        Parsed::Done { value, next } => if value <= 0x10FFFF && is_scalar(value as u32) {
            Parsed::Done { value: encode_scalar(value as u32), next }
        } else {
            Parsed::Failed { kind: TurtleErrorKind::InvalidCodePoint(value as u32), at: next }
        },
        Parsed::Failed { kind, at } => Parsed::Failed { kind, at },
    }
}

/// What the escape whose backslash stands before `i` decodes to: a control
/// escape names one byte, `u` and `U` are followed by the four or eight
/// hexadecimal digits of a character.
pub open spec fn escape(s: Seq<u8>, i: int) -> Parsed<Seq<u8>> {
    match byte_at(s, i) {
        Some(b) => if b == LOWER_T {
            Parsed::Done { value: seq![TAB], next: i + 1 }
        } else if b == LOWER_B {
            Parsed::Done { value: seq![BACKSPACE], next: i + 1 }
        } else if b == LOWER_N {
            Parsed::Done { value: seq![LINE_FEED], next: i + 1 }
        } else if b == LOWER_R {
            Parsed::Done { value: seq![CARRIAGE_RETURN], next: i + 1 }
        } else if b == LOWER_F {
            Parsed::Done { value: seq![FORM_FEED], next: i + 1 }
        } else if b == QUOTE || b == APOSTROPHE || b == BACKSLASH {
            Parsed::Done { value: seq![b], next: i + 1 }
        } else if b == LOWER_U {
            code_point(s, i + 1, 4)
        } else if b == UPPER_U {
            code_point(s, i + 1, 8)
        } else {
            unexpected(s, i)
        },
        None => unexpected(s, i),
    }
}

/// A run of digits ends behind its digits or fails among them.
pub proof fn lemma_hex_run_advances(s: Seq<u8>, i: int, n: nat, acc: nat)
    ensures
        match hex_run(s, i, n, acc) {
            Parsed::Done { value, next } => next == i + n && (n > 0 ==> 0 <= i && next <= s.len()),
            Parsed::Failed { kind, at } => i <= at < i + n,
        },
    decreases n,
{
    if n > 0 {
        match byte_at(s, i) {
            Some(b) => match hex_value(b) {
                Some(d) => lemma_hex_run_advances(s, i + 1, (n - 1) as nat, acc * 16 + d),
                None => {},
            },
            None => {},
        }
    }
}

/// An escape ends behind its first byte or fails at or behind it.
pub proof fn lemma_escape_advances(s: Seq<u8>, i: int)
    requires
        0 <= i,
    ensures
        match escape(s, i) {
            Parsed::Done { value, next } => i < next <= s.len(),
            Parsed::Failed { kind, at } => i <= at,
        },
{
    lemma_hex_run_advances(s, i + 1, 4, 0);
    lemma_hex_run_advances(s, i + 1, 8, 0);
}

/// A byte that stands for itself inside an identifier: anything but a
/// control byte, a space, and `<`, `>`, `"`, `{`, `}`, `|`, `^`, `` ` ``
/// and the backslash.
pub open spec fn iri_plain(b: u8) -> bool {
    b > SPACE && b != LESS && b != GREATER && b != QUOTE && b != LEFT_BRACE && b != RIGHT_BRACE
        && b != BAR && b != CARET && b != BACKTICK && b != BACKSLASH
}

/// The rest of an identifier from `j` on, behind what decoded to `acc`: up
/// to the closing `>`, with every escape decoded.
pub open spec fn iri_body(s: Seq<u8>, j: int, acc: Seq<u8>) -> Parsed<Seq<u8>>
    decreases s.len() - j,
{
    if 0 <= j < s.len() {
        if s[j] == GREATER {
            Parsed::Done { value: acc, next: j + 1 }
        } else if s[j] == BACKSLASH {
            match escape(s, j + 1) {
                Parsed::Done { value, next } => {
                    proof {
                        lemma_escape_advances(s, j + 1);
                    }
                    iri_body(s, next, acc + value)
                },
                Parsed::Failed { kind, at } => Parsed::Failed { kind, at },
            }
        } else if iri_plain(s[j]) {
            iri_body(s, j + 1, acc.push(s[j]))
        } else {
            unexpected(s, j)
        }
    } else {
        unexpected(s, j)
    }
}

/// The bytes of the identifier between `<` at `i` and the next `>` that is
/// not escaped.
pub open spec fn iri_ref(s: Seq<u8>, i: int) -> Parsed<Seq<u8>> {
    if byte_at(s, i) == Some(LESS) {
        iri_body(s, i + 1, Seq::empty())
    } else {
        unexpected(s, i)
    }
}

/// A byte that stands for itself inside a quoted string: anything but the
/// double quote, the backslash, the line feed and the carriage return.
pub open spec fn string_plain(b: u8) -> bool {
    b != QUOTE && b != BACKSLASH && b != LINE_FEED && b != CARRIAGE_RETURN
}

/// The rest of a quoted string from `j` on, behind what decoded to `acc`.
pub open spec fn string_body(s: Seq<u8>, j: int, acc: Seq<u8>) -> Parsed<Seq<u8>>
    decreases s.len() - j,
{
    if 0 <= j < s.len() {
        if s[j] == QUOTE {
            Parsed::Done { value: acc, next: j + 1 }
        } else if s[j] == BACKSLASH {
            match escape(s, j + 1) {
                Parsed::Done { value, next } => {
                    proof {
                        lemma_escape_advances(s, j + 1);
                    }
                    string_body(s, next, acc + value)
                },
                Parsed::Failed { kind, at } => Parsed::Failed { kind, at },
            }
        } else if string_plain(s[j]) {
            string_body(s, j + 1, acc.push(s[j]))
        } else {
            unexpected(s, j)
        }
    } else {
        unexpected(s, j)
    }
}

/// The bytes of the string between the double quote at `i` and the next
/// double quote that is not escaped.
pub open spec fn quoted(s: Seq<u8>, i: int) -> Parsed<Seq<u8>> {
    if byte_at(s, i) == Some(QUOTE) {
        string_body(s, i + 1, Seq::empty())
    } else {
        unexpected(s, i)
    }
}

/// An ASCII letter.
pub open spec fn is_letter(b: u8) -> bool {
    (UPPER_A <= b <= UPPER_Z) || (LOWER_A <= b <= LOWER_Z)
}

/// An ASCII digit.
pub open spec fn is_digit(b: u8) -> bool {
    DIGIT_0 <= b <= DIGIT_9
}

/// A byte that may begin the label of a blank node: a letter, a digit, `_`,
/// `:`, or a byte of a character beyond ASCII.
pub open spec fn label_start(b: u8) -> bool {
    is_letter(b) || is_digit(b) || b == UNDERSCORE || b == COLON || b >= 0x80
}

/// A byte that may stand inside the label of a blank node.
pub open spec fn label_byte(b: u8) -> bool {
    label_start(b) || b == HYPHEN
}

/// Where the label that holds position `j` ends. A full stop belongs to the
/// label exactly where a byte of the label follows it.
pub open spec fn label_end(s: Seq<u8>, j: int) -> int
    decreases s.len() - j,
{
    if 0 <= j < s.len() && (label_byte(s[j]) || (s[j] == FULL_STOP && j + 1 < s.len() && label_byte(
        s[j + 1],
    ))) {
        label_end(s, j + 1)
    } else {
        j
    }
}

/// The label of the blank node that `_:` at `i` introduces.
pub open spec fn blank_label(s: Seq<u8>, i: int) -> Parsed<Seq<u8>> {
    if byte_at(s, i) != Some(UNDERSCORE) {
        unexpected(s, i)
    } else if byte_at(s, i + 1) != Some(COLON) {
        unexpected(s, i + 1)
    } else {
        match byte_at(s, i + 2) {
            Some(b) => if label_start(b) {
                Parsed::Done {
                    value: s.subrange(i + 2, label_end(s, i + 3)),
                    next: label_end(s, i + 3),
                }
            } else {
                unexpected(s, i + 2)
            },
            None => unexpected(s, i + 2),
        }
    }
}

/// A byte that may stand inside a language tag.
pub open spec fn tag_byte(b: u8) -> bool {
    is_letter(b) || is_digit(b) || b == HYPHEN
}

/// Where the language tag that holds position `j` ends.
pub open spec fn tag_end(s: Seq<u8>, j: int) -> int
    decreases s.len() - j,
{
    if 0 <= j < s.len() && tag_byte(s[j]) {
        tag_end(s, j + 1)
    } else {
        j
    }
}

/// The language tag that `@` at `i` introduces: a letter, and then letters,
/// digits and hyphens.
pub open spec fn lang_tag(s: Seq<u8>, i: int) -> Parsed<Seq<u8>> {
    if byte_at(s, i) != Some(AT) {
        unexpected(s, i)
    } else {
        match byte_at(s, i + 1) {
            Some(b) => if is_letter(b) {
                Parsed::Done {
                    value: s.subrange(i + 1, tag_end(s, i + 2)),
                    next: tag_end(s, i + 2),
                }
            } else {
                unexpected(s, i + 1)
            },
            None => unexpected(s, i + 1),
        }
    }
}

/// A byte that may stand in the scheme of an identifier behind its first
/// letter: a letter, a digit, `+`, `-` or `.`.
pub open spec fn scheme_byte(b: u8) -> bool {
    is_letter(b) || is_digit(b) || b == PLUS || b == HYPHEN || b == FULL_STOP
}

/// The first position at or after `j` that holds no byte of a scheme.
pub open spec fn scheme_end(b: Seq<u8>, j: int) -> int
    decreases b.len() - j,
{
    if 0 <= j < b.len() && scheme_byte(b[j]) {
        scheme_end(b, j + 1)
    } else {
        j
    }
}

/// Whether an identifier is absolute: it begins with a scheme, which is a
/// letter that letters, digits, `+`, `-` and `.` may follow, and a colon.
pub open spec fn is_absolute(b: Seq<u8>) -> bool {
    b.len() > 0 && is_letter(b[0]) && byte_at(b, scheme_end(b, 1)) == Some(COLON)
}

/// The bytes of the absolute identifier at `i`. An identifier that is not
/// absolute is a violation, found behind the identifier.
pub open spec fn absolute_iri_ref(s: Seq<u8>, i: int) -> Parsed<Seq<u8>> {
    match iri_ref(s, i) {
        Parsed::Done { value, next } => if is_absolute(value) {
            Parsed::Done { value, next }
        } else {
            Parsed::Failed { kind: TurtleErrorKind::RelativeIdentifier, at: next }
        },
        Parsed::Failed { kind, at } => Parsed::Failed { kind, at },
    }
}

/// The text that bytes spell. Bytes that are not UTF-8 are a violation,
/// found at `at`.
pub open spec fn text(bytes: Seq<u8>, at: int) -> Parsed<Seq<char>> {
    if valid_utf8(bytes) {
        Parsed::Done { value: decode_utf8(bytes), next: at }
    } else {
        Parsed::Failed { kind: TurtleErrorKind::InvalidUtf8, at }
    }
}

/// The absolute identifier at `i`, as text.
pub open spec fn named_node(s: Seq<u8>, i: int) -> Parsed<Seq<char>> {
    match absolute_iri_ref(s, i) {
        Parsed::Done { value, next } => text(value, next),
        Parsed::Failed { kind, at } => Parsed::Failed { kind, at },
    }
}

/// The label of the blank node at `i`, as text.
pub open spec fn blank_node(s: Seq<u8>, i: int) -> Parsed<Seq<char>> {
    match blank_label(s, i) {
        Parsed::Done { value, next } => text(value, next),
        Parsed::Failed { kind, at } => Parsed::Failed { kind, at },
    }
}

/// The literal at `i`: a quoted string, and behind it a language tag, or
/// `^^` and the identifier of a datatype, or neither. One annotation
/// excludes the other.
pub open spec fn literal(s: Seq<u8>, i: int) -> Parsed<LiteralView> {
    match quoted(s, i) {
        Parsed::Failed { kind, at } => Parsed::Failed { kind, at },
        Parsed::Done { value: bytes, next } => {
            let j = after_blanks(s, next);
            if byte_at(s, j) == Some(AT) {
                match lang_tag(s, j) {
                    Parsed::Failed { kind, at } => Parsed::Failed { kind, at },
                    Parsed::Done { value: tag, next: k } => match text(bytes, k) {
                        Parsed::Failed { kind, at } => Parsed::Failed { kind, at },
                        Parsed::Done { value, next: _ } => match text(tag, k) {
                            Parsed::Failed { kind, at } => Parsed::Failed { kind, at },
                            Parsed::Done { value: language, next: _ } => Parsed::Done {
                                value: LiteralView::LanguageTaggedString { value, language },
                                next: k,
                            },
                        },
                    },
                }
            } else if byte_at(s, j) == Some(CARET) {
                if byte_at(s, j + 1) != Some(CARET) {
                    unexpected(s, j + 1)
                } else {
                    let k = after_blanks(s, j + 2);
                    match text(bytes, k) {
                        Parsed::Failed { kind, at } => Parsed::Failed { kind, at },
                        Parsed::Done { value, next: _ } => match named_node(s, k) {
                            Parsed::Failed { kind, at } => Parsed::Failed { kind, at },
                            Parsed::Done { value: datatype, next: m } => Parsed::Done {
                                value: LiteralView::Typed { value, datatype },
                                next: m,
                            },
                        },
                    }
                }
            } else {
                match text(bytes, j) {
                    Parsed::Failed { kind, at } => Parsed::Failed { kind, at },
                    Parsed::Done { value, next: _ } => Parsed::Done {
                        value: LiteralView::Simple { value },
                        next: j,
                    },
                }
            }
        },
    }
}

/// The subject at `i`: an identifier or a blank node.
pub open spec fn subject(s: Seq<u8>, i: int) -> Parsed<NamedOrBlankNodeView> {
    if byte_at(s, i) == Some(LESS) {
        match named_node(s, i) {
            Parsed::Done { value, next } => Parsed::Done {
                value: NamedOrBlankNodeView::NamedNode(value),
                next,
            },
            Parsed::Failed { kind, at } => Parsed::Failed { kind, at },
        }
    } else if byte_at(s, i) == Some(UNDERSCORE) {
        match blank_node(s, i) {
            Parsed::Done { value, next } => Parsed::Done {
                value: NamedOrBlankNodeView::BlankNode(value),
                next,
            },
            Parsed::Failed { kind, at } => Parsed::Failed { kind, at },
        }
    } else {
        unexpected(s, i)
    }
}

/// The object at `i`: an identifier, a blank node or a literal.
pub open spec fn object(s: Seq<u8>, i: int) -> Parsed<TermView> {
    if byte_at(s, i) == Some(LESS) {
        match named_node(s, i) {
            Parsed::Done { value, next } => Parsed::Done {
                value: TermView::NamedNode(value),
                next,
            },
            Parsed::Failed { kind, at } => Parsed::Failed { kind, at },
        }
    } else if byte_at(s, i) == Some(UNDERSCORE) {
        match blank_node(s, i) {
            Parsed::Done { value, next } => Parsed::Done {
                value: TermView::BlankNode(value),
                next,
            },
            Parsed::Failed { kind, at } => Parsed::Failed { kind, at },
        }
    } else if byte_at(s, i) == Some(QUOTE) {
        match literal(s, i) {
            Parsed::Done { value, next } => Parsed::Done {
                value: TermView::Literal(value),
                next,
            },
            Parsed::Failed { kind, at } => Parsed::Failed { kind, at },
        }
    } else {
        unexpected(s, i)
    }
}

/// What stands behind a term that ends at `next`: the full stop, and
/// nothing but a comment up to the end of the line. The value is the
/// position behind the line.
pub open spec fn statement_end(s: Seq<u8>, next: int) -> Parsed<()> {
    let d = after_blanks(s, next);
    if byte_at(s, d) != Some(FULL_STOP) {
        unexpected(s, d)
    } else {
        let e = after_blanks(s, d + 1);
        if ends_line(s, e) {
            Parsed::Done { value: (), next: after_line(s, e) }
        } else {
            unexpected(s, e)
        }
    }
}

/// The rest of a statement behind its predicate, which ends at `next`: the
/// object and the end of the statement.
pub open spec fn statement_from_object(
    s: Seq<u8>,
    subject: NamedOrBlankNodeView,
    predicate: Seq<char>,
    next: int,
) -> Parsed<Option<TripleView>> {
    match object(s, after_blanks(s, next)) {
        Parsed::Failed { kind, at } => Parsed::Failed { kind, at },
        Parsed::Done { value: object, next } => match statement_end(s, next) {
            Parsed::Failed { kind, at } => Parsed::Failed { kind, at },
            Parsed::Done { value: _, next } => Parsed::Done {
                value: Some(TripleView { subject, predicate, object }),
                next,
            },
        },
    }
}

/// The rest of a statement behind its subject, which ends at `next`: the
/// predicate, which is an identifier, the object and the end of the
/// statement.
pub open spec fn statement_from_predicate(
    s: Seq<u8>,
    subject: NamedOrBlankNodeView,
    next: int,
) -> Parsed<Option<TripleView>> {
    match named_node(s, after_blanks(s, next)) {
        Parsed::Failed { kind, at } => Parsed::Failed { kind, at },
        Parsed::Done { value: predicate, next } => statement_from_object(
            s,
            subject,
            predicate,
            next,
        ),
    }
}

/// The line that begins at `i`: no triple where the line is empty or holds
/// a comment only, and one statement otherwise. The position behind a line
/// is that behind its line feed, or the end of the input.
pub open spec fn statement(s: Seq<u8>, i: int) -> Parsed<Option<TripleView>> {
    let a = after_blanks(s, i);
    if ends_line(s, a) {
        Parsed::Done { value: None, next: after_line(s, a) }
    } else {
        match subject(s, a) {
            Parsed::Failed { kind, at } => Parsed::Failed { kind, at },
            Parsed::Done { value: subject, next } => statement_from_predicate(s, subject, next),
        }
    }
}

/// Spaces and tabs before `i` do not change where the line ends.
pub proof fn lemma_after_line_skips_blanks(s: Seq<u8>, i: int)
    ensures
        after_line(s, after_blanks(s, i)) == after_line(s, i),
        i <= after_blanks(s, i),
        0 <= i <= s.len() ==> after_blanks(s, i) <= s.len(),
    decreases s.len() - i,
{
    if 0 <= i < s.len() && is_blank(s[i]) {
        lemma_after_line_skips_blanks(s, i + 1);
    }
}

/// The end of a line lies behind the first line feed at or after `i`, and
/// nowhere else: it is behind `i` unless the input ends at `i`, no line feed
/// stands before the last byte of the line, and the line ends with a line
/// feed or with the input.
pub proof fn lemma_after_line(s: Seq<u8>, i: int)
    requires
        0 <= i <= s.len(),
    ensures
        i <= after_line(s, i) <= s.len(),
        i < s.len() ==> i < after_line(s, i),
        forall|k: int| i <= k < after_line(s, i) - 1 ==> s[k] != LINE_FEED,
        after_line(s, i) == s.len() || s[after_line(s, i) - 1] == LINE_FEED,
    decreases s.len() - i,
{
    if i < s.len() && s[i] != LINE_FEED {
        lemma_after_line(s, i + 1);
    }
}

/// A line states no triple exactly where nothing but spaces and tabs stands
/// before its end or its comment. Reading such a line ends right behind it,
/// never inside it and never in the line after it.
pub proof fn lemma_empty_line(s: Seq<u8>, i: int)
    requires
        0 <= i <= s.len(),
    ensures
        ends_line(s, after_blanks(s, i)) <==> statement(s, i) matches Parsed::Done {
            value: None,
            ..
        },
        ends_line(s, after_blanks(s, i)) ==> statement(s, i) == (Parsed::Done {
            value: None::<TripleView>,
            next: after_line(s, i),
        }),
{
    lemma_after_line_skips_blanks(s, i);
}

/// A predicate must be an identifier. Where a subject is followed by
/// anything but `<`, be it a blank node, a literal or something else, the
/// line is rejected at that byte, whatever stands behind it.
pub proof fn lemma_predicate_is_identifier(s: Seq<u8>, i: int)
    ensures
        ({
            let a = after_blanks(s, i);
            !ends_line(s, a) ==> match subject(s, a) {
                Parsed::Done { value, next } => {
                    let p = after_blanks(s, next);
                    byte_at(s, p) != Some(LESS) ==> statement(s, i) == unexpected::<
                        Option<TripleView>,
                    >(s, p)
                },
                Parsed::Failed { kind, at } => statement(s, i) == (Parsed::Failed::<
                    Option<TripleView>,
                > { kind, at }),
            }
        }),
{
}

/// Every identifier that the grammar gives is absolute: its UTF-8 bytes
/// begin with a scheme.
pub proof fn lemma_named_node_is_absolute(s: Seq<u8>, i: int)
    ensures
        named_node(s, i) matches Parsed::Done { value, next } ==> is_absolute(encode_utf8(value)),
{
    match absolute_iri_ref(s, i) {
        Parsed::Done { value, next } => {
            if valid_utf8(value) {
                decode_utf8_encode_utf8(value);
            }
        },
        Parsed::Failed { kind, at } => {},
    }
}

/// A literal has one annotation at most. Behind a literal, with or without
/// an annotation, a statement goes on with its full stop: a language tag or
/// a datatype mark in that place is a violation.
pub proof fn lemma_one_annotation(s: Seq<u8>, i: int)
    ensures
        match literal(s, i) {
            Parsed::Done { value, next } => {
                let d = after_blanks(s, next);
                &&& byte_at(s, d) != Some(FULL_STOP) ==> statement_end(s, next) == unexpected::<()>(
                    s,
                    d,
                )
                &&& (byte_at(s, d) == Some(AT) || byte_at(s, d) == Some(CARET))
                    ==> statement_end(s, next) is Failed
            },
            Parsed::Failed { kind, at } => true,
        },
{
}

/// Bytes that stand for themselves are decoded to themselves: behind what
/// gave `acc`, a run of such bytes up to `>` at `k` adds itself to `acc`.
pub proof fn lemma_plain_iri_body(s: Seq<u8>, j: int, k: int, acc: Seq<u8>)
    requires
        0 <= j <= k < s.len(),
        s[k] == GREATER,
        forall|m: int| j <= m < k ==> iri_plain(#[trigger] s[m]),
    ensures
        iri_body(s, j, acc) == (Parsed::Done { value: acc + s.subrange(j, k), next: k + 1 }),
    decreases k - j,
{
    if j < k {
        lemma_plain_iri_body(s, j + 1, k, acc.push(s[j]));
        assert(acc.push(s[j]) + s.subrange(j + 1, k) =~= acc + s.subrange(j, k));
    } else {
        assert(acc + s.subrange(j, k) =~= acc);
    }
}

/// An identifier without escapes is decoded to the bytes between its angle
/// brackets.
pub proof fn lemma_plain_iri(s: Seq<u8>, i: int, k: int)
    requires
        0 <= i < k < s.len(),
        s[i] == LESS,
        s[k] == GREATER,
        forall|m: int| i < m < k ==> iri_plain(#[trigger] s[m]),
    ensures
        iri_ref(s, i) == (Parsed::Done { value: s.subrange(i + 1, k), next: k + 1 }),
{
    lemma_plain_iri_body(s, i + 1, k, Seq::empty());
    assert(Seq::<u8>::empty() + s.subrange(i + 1, k) =~= s.subrange(i + 1, k));
}

/// The same for the body of a quoted string.
pub proof fn lemma_plain_string_body(s: Seq<u8>, j: int, k: int, acc: Seq<u8>)
    requires
        0 <= j <= k < s.len(),
        s[k] == QUOTE,
        forall|m: int| j <= m < k ==> string_plain(#[trigger] s[m]),
    ensures
        string_body(s, j, acc) == (Parsed::Done { value: acc + s.subrange(j, k), next: k + 1 }),
    decreases k - j,
{
    if j < k {
        lemma_plain_string_body(s, j + 1, k, acc.push(s[j]));
        assert(acc.push(s[j]) + s.subrange(j + 1, k) =~= acc + s.subrange(j, k));
    } else {
        assert(acc + s.subrange(j, k) =~= acc);
    }
}

/// A quoted string without escapes is decoded to the bytes between its
/// quotes.
pub proof fn lemma_plain_string(s: Seq<u8>, i: int, k: int)
    requires
        0 <= i < k < s.len(),
        s[i] == QUOTE,
        s[k] == QUOTE,
        forall|m: int| i < m < k ==> string_plain(#[trigger] s[m]),
    ensures
        quoted(s, i) == (Parsed::Done { value: s.subrange(i + 1, k), next: k + 1 }),
{
    lemma_plain_string_body(s, i + 1, k, Seq::empty());
    assert(Seq::<u8>::empty() + s.subrange(i + 1, k) =~= s.subrange(i + 1, k));
}

/// Whether what the grammar finds at `i` lies in the input: a value ends
/// behind `i`, a violation is found at or behind `i`, and neither lies
/// beyond the end.
pub open spec fn advances<T>(p: Parsed<T>, s: Seq<u8>, i: int) -> bool {
    match p {
        Parsed::Done { value, next } => i < next <= s.len(),
        Parsed::Failed { kind, at } => i <= at <= s.len(),
    }
}

/// A run of digits ends, or fails, in the input.
pub proof fn lemma_hex_run_in_input(s: Seq<u8>, i: int, n: nat, acc: nat)
    requires
        0 <= i <= s.len(),
    ensures
        match hex_run(s, i, n, acc) {
            Parsed::Done { value, next } => i <= next <= s.len(),
            Parsed::Failed { kind, at } => i <= at <= s.len(),
        },
    decreases n,
{
    if n > 0 && i < s.len() {
        match hex_value(s[i]) {
            Some(d) => lemma_hex_run_in_input(s, i + 1, (n - 1) as nat, acc * 16 + d),
            None => {},
        }
    }
}

/// An escape ends, or fails, in the input.
pub proof fn lemma_escape_in_input(s: Seq<u8>, i: int)
    requires
        0 <= i <= s.len(),
    ensures
        advances(escape(s, i), s, i),
{
    lemma_escape_advances(s, i);
    if i < s.len() {
        lemma_hex_run_in_input(s, i + 1, 4, 0);
        lemma_hex_run_in_input(s, i + 1, 8, 0);
    }
}

/// The rest of an identifier ends, or fails, in the input.
pub proof fn lemma_iri_body_in_input(s: Seq<u8>, j: int, acc: Seq<u8>)
    requires
        0 <= j <= s.len(),
    ensures
        advances(iri_body(s, j, acc), s, j),
    decreases s.len() - j,
{
    if j < s.len() {
        if s[j] == GREATER {
        } else if s[j] == BACKSLASH {
            lemma_escape_in_input(s, j + 1);
            match escape(s, j + 1) {
                Parsed::Done { value, next } => lemma_iri_body_in_input(s, next, acc + value),
                Parsed::Failed { kind, at } => {},
            }
        } else if iri_plain(s[j]) {
            lemma_iri_body_in_input(s, j + 1, acc.push(s[j]));
        }
    }
}

/// The rest of a quoted string ends, or fails, in the input.
pub proof fn lemma_string_body_in_input(s: Seq<u8>, j: int, acc: Seq<u8>)
    requires
        0 <= j <= s.len(),
    ensures
        advances(string_body(s, j, acc), s, j),
    decreases s.len() - j,
{
    if j < s.len() {
        if s[j] == QUOTE {
        } else if s[j] == BACKSLASH {
            lemma_escape_in_input(s, j + 1);
            match escape(s, j + 1) {
                Parsed::Done { value, next } => lemma_string_body_in_input(s, next, acc + value),
                Parsed::Failed { kind, at } => {},
            }
        } else if string_plain(s[j]) {
            lemma_string_body_in_input(s, j + 1, acc.push(s[j]));
        }
    }
}

/// A label ends in the input, at or behind where it is looked for.
pub proof fn lemma_label_end_in_input(s: Seq<u8>, j: int)
    requires
        0 <= j <= s.len(),
    ensures
        j <= label_end(s, j) <= s.len(),
    decreases s.len() - j,
{
    if j < s.len() && (label_byte(s[j]) || (s[j] == FULL_STOP && j + 1 < s.len() && label_byte(
        s[j + 1],
    ))) {
        lemma_label_end_in_input(s, j + 1);
    }
}

/// A language tag ends in the input, at or behind where it is looked for.
pub proof fn lemma_tag_end_in_input(s: Seq<u8>, j: int)
    requires
        0 <= j <= s.len(),
    ensures
        j <= tag_end(s, j) <= s.len(),
    decreases s.len() - j,
{
    if j < s.len() && tag_byte(s[j]) {
        lemma_tag_end_in_input(s, j + 1);
    }
}

/// Every term ends behind where it begins, and every violation is found in
/// the input.
pub proof fn lemma_terms_advance(s: Seq<u8>, i: int)
    requires
        0 <= i <= s.len(),
    ensures
        advances(named_node(s, i), s, i),
        advances(blank_node(s, i), s, i),
        advances(literal(s, i), s, i),
        advances(subject(s, i), s, i),
        advances(object(s, i), s, i),
{
    if i < s.len() {
        lemma_iri_body_in_input(s, i + 1, Seq::empty());
        lemma_string_body_in_input(s, i + 1, Seq::empty());
        if i + 2 < s.len() {
            lemma_label_end_in_input(s, i + 3);
        }
        match quoted(s, i) {
            Parsed::Done { value, next } => {
                lemma_after_line_skips_blanks(s, next);
                let j = after_blanks(s, next);
                if j < s.len() {
                    if j + 1 < s.len() {
                        lemma_tag_end_in_input(s, j + 2);
                        lemma_after_line_skips_blanks(s, j + 2);
                        let k = after_blanks(s, j + 2);
                        if k < s.len() {
                            lemma_iri_body_in_input(s, k + 1, Seq::empty());
                        }
                    }
                }
            },
            Parsed::Failed { kind, at } => {},
        }
    }
}

/// A term that begins as it must is not found at fault at its first byte:
/// behind `<`, `_` or `"` a violation lies behind the position of the term.
pub proof fn lemma_fails_behind_first_byte(s: Seq<u8>, i: int)
    requires
        0 <= i < s.len(),
    ensures
        s[i] == LESS ==> (named_node(s, i) matches Parsed::Failed { kind, at } ==> i < at),
        s[i] == UNDERSCORE ==> (blank_node(s, i) matches Parsed::Failed { kind, at } ==> i < at),
        s[i] == QUOTE ==> (literal(s, i) matches Parsed::Failed { kind, at } ==> i < at),
{
    lemma_iri_body_in_input(s, i + 1, Seq::empty());
    lemma_string_body_in_input(s, i + 1, Seq::empty());
    if i + 2 < s.len() {
        lemma_label_end_in_input(s, i + 3);
    }
    match quoted(s, i) {
        Parsed::Done { value, next } => {
            lemma_after_line_skips_blanks(s, next);
            let j = after_blanks(s, next);
            if j < s.len() {
                if j + 1 < s.len() {
                    lemma_tag_end_in_input(s, j + 2);
                    lemma_after_line_skips_blanks(s, j + 2);
                    let k = after_blanks(s, j + 2);
                    if k < s.len() {
                        lemma_iri_body_in_input(s, k + 1, Seq::empty());
                    }
                }
            }
        },
        Parsed::Failed { kind, at } => {},
    }
}

/// Reading a line consumes it: the line ends behind where it begins,
/// unless the input ends there, so that reading line after line comes to the
/// end of the input. A violation is found in the input.
pub proof fn lemma_statement_advances(s: Seq<u8>, i: int)
    requires
        0 <= i <= s.len(),
    ensures
        match statement(s, i) {
            Parsed::Done { value, next } => i <= next <= s.len() && (i < s.len() ==> i < next),
            Parsed::Failed { kind, at } => i <= at <= s.len(),
        },
{
    lemma_after_line_skips_blanks(s, i);
    let a = after_blanks(s, i);
    lemma_after_line(s, a);
    if !ends_line(s, a) {
        lemma_terms_advance(s, a);
        match subject(s, a) {
            Parsed::Done { value, next } => {
                lemma_after_line_skips_blanks(s, next);
                let p = after_blanks(s, next);
                lemma_terms_advance(s, p);
                match named_node(s, p) {
                    Parsed::Done { value, next } => {
                        lemma_after_line_skips_blanks(s, next);
                        let o = after_blanks(s, next);
                        lemma_terms_advance(s, o);
                        match object(s, o) {
                            Parsed::Done { value, next } => {
                                lemma_after_line_skips_blanks(s, next);
                                let d = after_blanks(s, next);
                                if d < s.len() {
                                    lemma_after_line_skips_blanks(s, d + 1);
                                    lemma_after_line(s, after_blanks(s, d + 1));
                                }
                            },
                            Parsed::Failed { kind, at } => {},
                        }
                    },
                    Parsed::Failed { kind, at } => {},
                }
            },
            Parsed::Failed { kind, at } => {},
        }
    }
}

/// A statement that begins as it must is not found at fault at its first
/// byte: behind `<` or `_` a violation lies behind the start of the
/// statement.
pub proof fn lemma_statement_fails_behind_first_byte(s: Seq<u8>, i: int)
    requires
        0 <= i <= s.len(),
    ensures
        ({
            let a = after_blanks(s, i);
            (byte_at(s, a) == Some(LESS) || byte_at(s, a) == Some(UNDERSCORE)) ==> (statement(
                s,
                i,
            ) matches Parsed::Failed { kind, at } ==> a < at)
        }),
{
    lemma_after_line_skips_blanks(s, i);
    let a = after_blanks(s, i);
    if a < s.len() && (s[a] == LESS || s[a] == UNDERSCORE) {
        lemma_fails_behind_first_byte(s, a);
        lemma_terms_advance(s, a);
        match subject(s, a) {
            Parsed::Done { value, next } => {
                lemma_after_line_skips_blanks(s, next);
                let p = after_blanks(s, next);
                lemma_terms_advance(s, p);
                match named_node(s, p) {
                    Parsed::Done { value, next } => {
                        lemma_after_line_skips_blanks(s, next);
                        let o = after_blanks(s, next);
                        lemma_terms_advance(s, o);
                        match object(s, o) {
                            Parsed::Done { value, next } => {
                                lemma_after_line_skips_blanks(s, next);
                                let d = after_blanks(s, next);
                                if d < s.len() {
                                    lemma_after_line_skips_blanks(s, d + 1);
                                }
                            },
                            Parsed::Failed { kind, at } => {},
                        }
                    },
                    Parsed::Failed { kind, at } => {},
                }
            },
            Parsed::Failed { kind, at } => {},
        }
    }
}

/// The triples that the lines from `i` on state, behind those in `acc`, up
/// to the end of the input or to the first violation.
pub open spec fn document_from(s: Seq<u8>, i: int, acc: Seq<TripleView>) -> Parsed<
    Seq<TripleView>,
>
    decreases s.len() - i,
{
    if 0 <= i < s.len() {
        match statement(s, i) {
            Parsed::Done { value, next } => {
                proof {
                    lemma_statement_advances(s, i);
                }
                match value {
                    Some(t) => document_from(s, next, acc.push(t)),
                    None => document_from(s, next, acc),
                }
            },
            Parsed::Failed { kind, at } => Parsed::Failed { kind, at },
        }
    } else {
        Parsed::Done { value: acc, next: i }
    }
}

} // verus!
