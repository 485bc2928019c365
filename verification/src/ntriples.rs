//! A streaming parser of N-Triples.
//!
//! The parser reads one line at a time from a source of bytes and hands out
//! the triple that the line states, if it states one. What it accepts, and
//! what it finds at fault, is what the grammar says.

use vstd::prelude::*;
use vstd::utf8::{
    decode_utf8, decode_utf8_encode_utf8, encode_scalar, encode_utf8, is_scalar, valid_utf8,
};
use crate::ascii::{
    APOSTROPHE, AT, BACKSLASH, BACKSPACE, BACKTICK, BAR, CARET, CARRIAGE_RETURN, COLON, DIGIT_0,
    DIGIT_9, FORM_FEED, FULL_STOP, GREATER, HASH, HYPHEN, LEFT_BRACE, LESS, LINE_FEED, LOWER_A,
    LOWER_B, LOWER_F, LOWER_N, LOWER_R, LOWER_T, LOWER_U, LOWER_Z, PLUS, QUOTE, RIGHT_BRACE,
    SPACE, TAB, UNDERSCORE, UPPER_A, UPPER_F, UPPER_U, UPPER_Z,
};
use crate::error::{TurtleError, TurtleErrorKind};
use crate::grammar::{
    after_blanks, after_line, blank_node, code_point, document_from, ends_line, escape,
    absolute_iri_ref, hex_run, hex_value, iri_body, iri_plain, iri_ref, is_absolute, is_letter,
    label_byte, label_end, scheme_byte, scheme_end,
    label_start, lang_tag, lemma_escape_advances, lemma_fails_behind_first_byte,
    lemma_iri_body_in_input, lemma_statement_advances,
    lemma_statement_fails_behind_first_byte, literal,
    named_node, object, quoted, statement, string_body, subject, tag_byte, tag_end, text,
    Parsed,
};
use crate::model::{
    AsRefBlankNode, AsRefLiteral, AsRefNamedNode, AsRefNamedOrBlankNode, AsRefTerm, AsRefTriple,
    TripleView,
};
use crate::reader::{is_error, line_at, OneLookAheadLineByteReader};
use crate::sizes::{buffered_len, lemma_buffers_fit_line};

verus! {

/// Whether a result and the position that a source was left at are what the
/// grammar finds: the value with the position behind it, or the violation
/// with the position at which it is found.
pub open spec fn agrees<T: View>(
    r: Result<T, TurtleError>,
    position: int,
    first: nat,
    s: Seq<u8>,
    p: Parsed<T::V>,
) -> bool {
    match p {
        Parsed::Done { value, next } => r matches Ok(v) && v@ == value && position == next,
        Parsed::Failed { kind, at } => r matches Err(e) && is_error(e, first, s, kind, at)
            && position == at,
    }
}

/// The same for a line, which may state no triple.
pub open spec fn agrees_line(
    r: Result<Option<AsRefTriple>, TurtleError>,
    position: int,
    first: nat,
    s: Seq<u8>,
    p: Parsed<Option<TripleView>>,
) -> bool {
    match p {
        Parsed::Done { value, next } => position == next && match value {
            Some(stated) => r matches Ok(Some(t)) && t@ == stated,
            None => r matches Ok(None),
        },
        Parsed::Failed { kind, at } => r matches Err(e) && is_error(e, first, s, kind, at)
            && position == at,
    }
}

/// The same for a function that leaves its value in a buffer.
pub open spec fn agrees_in(
    r: Result<(), TurtleError>,
    buffer: Seq<u8>,
    position: int,
    first: nat,
    s: Seq<u8>,
    p: Parsed<Seq<u8>>,
) -> bool {
    match p {
        Parsed::Done { value, next } => r is Ok && buffer == value && position == next,
        Parsed::Failed { kind, at } => r matches Err(e) && is_error(e, first, s, kind, at)
            && position == at,
    }
}

/// What a buffer holds after a term could not be read: what it held
/// before, where the violation was found at the very start of the term, so
/// that nothing was read, and nothing otherwise.
pub open spec fn after_failure(before: Seq<u8>, entry: int, at: int) -> Seq<u8> {
    if at == entry {
        before
    } else {
        Seq::empty()
    }
}

/// `std::str::from_utf8`: the text that the bytes spell, where they are
/// UTF-8, and nothing where they are not.
#[verifier::external_body]
fn utf8_text(bytes: &[u8]) -> (r: Option<&str>)
    ensures
        r is Some <==> valid_utf8(bytes@),
        r matches Some(t) ==> t@ == decode_utf8(bytes@),
{
    match std::str::from_utf8(bytes) {
        Ok(t) => Some(t),
        Err(_) => None,
    }
}

/// The text in a buffer, or the error that it is not UTF-8.
fn to_str(read: &OneLookAheadLineByteReader, buffer: &Vec<u8>) -> (r: Result<
    String,
    TurtleError,
>)
    requires
        read.wf(),
    ensures
        match text(buffer@, read.position()) {
            Parsed::Done { value, next } => r matches Ok(t) && t@ == value,
            Parsed::Failed { kind, at } => r matches Err(e) && is_error(
                e,
                read.first_line(),
                read.input(),
                kind,
                at,
            ),
        },
        r matches Ok(t) ==> buffer@ == encode_utf8(t@),
{
    proof {
        if valid_utf8(buffer@) {
            decode_utf8_encode_utf8(buffer@);
        }
    }
    match utf8_text(buffer.as_slice()) {
        Some(t) => Ok(t.to_owned()),
        None => Err(read.error(TurtleErrorKind::InvalidUtf8)),
    }
}

/// Moves past spaces and tabs.
pub fn skip_whitespace(read: &mut OneLookAheadLineByteReader)
    requires
        old(read).wf(),
    ensures
        final(read).wf(),
        final(read).input() == old(read).input(),
        final(read).first_line() == old(read).first_line(),
        final(read).position() == after_blanks(old(read).input(), old(read).position()),
{
    loop
        invariant
            read.wf(),
            read.input() == old(read).input(),
            read.first_line() == old(read).first_line(),
            after_blanks(read.input(), read.position()) == after_blanks(
                old(read).input(),
                old(read).position(),
            ),
        decreases read.input().len() - read.position(),
    {
        match read.current() {
            Some(b) => {
                if b == SPACE || b == TAB {
                    read.consume();
                } else {
                    return ;
                }
            },
            None => {
                return ;
            },
        }
    }
}

/// Moves behind the end of the line: behind the next line feed, or to the
/// end of the input.
pub fn skip_until_eol(read: &mut OneLookAheadLineByteReader)
    requires
        old(read).wf(),
    ensures
        final(read).wf(),
        final(read).input() == old(read).input(),
        final(read).first_line() == old(read).first_line(),
        final(read).position() == after_line(old(read).input(), old(read).position()),
{
    loop
        invariant
            read.wf(),
            read.input() == old(read).input(),
            read.first_line() == old(read).first_line(),
            after_line(read.input(), read.position()) == after_line(
                old(read).input(),
                old(read).position(),
            ),
        decreases read.input().len() - read.position(),
    {
        match read.current() {
            None => {
                return ;
            },
            Some(b) => {
                read.consume();
                if b == LINE_FEED {
                    return ;
                }
            },
        }
    }
}

/// The value of a hexadecimal digit.
fn hex_digit(b: u8) -> (r: Option<u32>)
    ensures
        match hex_value(b) {
            Some(d) => r == Some(d as u32) && d < 16,
            None => r is None,
        },
{
    if DIGIT_0 <= b && b <= DIGIT_9 {
        Some((b - DIGIT_0) as u32)
    } else if UPPER_A <= b && b <= UPPER_F {
        Some((b - UPPER_A + 10) as u32)
    } else if LOWER_A <= b && b <= LOWER_F {
        Some((b - LOWER_A + 10) as u32)
    } else {
        None
    }
}

/// Sixteen to the power of `n`.
pub open spec fn sixteen_to(n: nat) -> nat
    decreases n,
{
    if n == 0 {
        1
    } else {
        16 * sixteen_to((n - 1) as nat)
    }
}

/// Reads `n` hexadecimal digits, eight at most, and gives the number they
/// spell.
fn parse_hex(read: &mut OneLookAheadLineByteReader, n: u32) -> (r: Result<u32, TurtleError>)
    requires
        old(read).wf(),
        n <= 8,
    ensures
        final(read).wf(),
        final(read).input() == old(read).input(),
        final(read).first_line() == old(read).first_line(),
        match hex_run(old(read).input(), old(read).position(), n as nat, 0) {
            Parsed::Done { value, next } => r == Ok::<u32, TurtleError>(value as u32) && value
                <= u32::MAX && final(read).position() == next,
            Parsed::Failed { kind, at } => r matches Err(e) && is_error(
                e,
                old(read).first_line(),
                old(read).input(),
                kind,
                at,
            ) && final(read).position() == at,
        },
{
    let mut value: u32 = 0;
    let mut k: u32 = 0;
    proof {
        lemma_sixteen_to_eight();
    }
    while k < n
        invariant
            read.wf(),
            read.input() == old(read).input(),
            read.first_line() == old(read).first_line(),
            k <= n <= 8,
            value < sixteen_to(k as nat),
            sixteen_to(k as nat) <= sixteen_to(8),
            sixteen_to(8) == 0x1_0000_0000,
            hex_run(old(read).input(), old(read).position(), n as nat, 0) == hex_run(
                read.input(),
                read.position(),
                (n - k) as nat,
                value as nat,
            ),
        decreases n - k,
    {
        let digit = match read.current() {
            Some(b) => hex_digit(b),
            None => None,
        };
        match digit {
            Some(d) => {
                proof {
                    lemma_sixteen_grows(k as nat + 1, 8);
                    assert(value * 16 + d < sixteen_to(k as nat + 1)) by (nonlinear_arith)
                        requires
                            value < sixteen_to(k as nat),
                            d < 16,
                            sixteen_to(k as nat + 1) == 16 * sixteen_to(k as nat),
                    ;
                }
                value = value * 16 + d;
                read.consume();
                k = k + 1;
            },
            None => {
                return Err(read.unexpected_char_error());
            },
        }
    }
    Ok(value)
}

proof fn lemma_sixteen_to_eight()
    ensures
        sixteen_to(0) == 1,
        sixteen_to(8) == 0x1_0000_0000,
{
    assert(sixteen_to(0) == 1);
    assert(sixteen_to(1) == 16);
    assert(sixteen_to(2) == 0x100);
    assert(sixteen_to(3) == 0x1000);
    assert(sixteen_to(4) == 0x1_0000);
    assert(sixteen_to(5) == 0x10_0000);
    assert(sixteen_to(6) == 0x100_0000);
    assert(sixteen_to(7) == 0x1000_0000);
}

proof fn lemma_sixteen_grows(a: nat, b: nat)
    requires
        a <= b,
    ensures
        sixteen_to(a) <= sixteen_to(b),
    decreases b - a,
{
    if a < b {
        lemma_sixteen_grows(a + 1, b);
    }
}

/// Appends the UTF-8 encoding of a Unicode scalar value.
fn push_scalar(buffer: &mut Vec<u8>, v: u32)
    requires
        is_scalar(v),
    ensures
        final(buffer)@ == old(buffer)@ + encode_scalar(v),
{
    if v <= 0x7F {
        assert((v & 0x7F) <= 0x7F) by (bit_vector);
        buffer.push((v & 0x7F) as u8);
    } else if v <= 0x7FF {
        assert(((v >> 6) & 0x1F) <= 0x1F) by (bit_vector);
        assert((v & 0x3F) <= 0x3F) by (bit_vector);
        buffer.push(0xC0 | ((v >> 6) & 0x1F) as u8);
        buffer.push(0x80 | (v & 0x3F) as u8);
    } else if v <= 0xFFFF {
        assert(((v >> 12) & 0x0F) <= 0x0F) by (bit_vector);
        assert(((v >> 6) & 0x3F) <= 0x3F) by (bit_vector);
        assert((v & 0x3F) <= 0x3F) by (bit_vector);
        buffer.push(0xE0 | ((v >> 12) & 0x0F) as u8);
        buffer.push(0x80 | ((v >> 6) & 0x3F) as u8);
        buffer.push(0x80 | (v & 0x3F) as u8);
    } else {
        assert(((v >> 18) & 0x7) <= 0x7) by (bit_vector);
        assert(((v >> 12) & 0x3F) <= 0x3F) by (bit_vector);
        assert(((v >> 6) & 0x3F) <= 0x3F) by (bit_vector);
        assert((v & 0x3F) <= 0x3F) by (bit_vector);
        buffer.push(0xF0 | ((v >> 18) & 0x7) as u8);
        buffer.push(0x80 | ((v >> 12) & 0x3F) as u8);
        buffer.push(0x80 | ((v >> 6) & 0x3F) as u8);
        buffer.push(0x80 | (v & 0x3F) as u8);
    }
    assert(buffer@ =~= old(buffer)@ + encode_scalar(v));
}

/// Reads the `n` hexadecimal digits of a character and appends its UTF-8
/// encoding.
fn parse_code_point(read: &mut OneLookAheadLineByteReader, buffer: &mut Vec<u8>, n: u32) -> (r:
    Result<(), TurtleError>)
    requires
        old(read).wf(),
        n <= 8,
    ensures
        final(read).wf(),
        final(read).input() == old(read).input(),
        final(read).first_line() == old(read).first_line(),
        match code_point(old(read).input(), old(read).position(), n as nat) {
            Parsed::Done { value, next } => r is Ok && final(buffer)@ == old(buffer)@ + value
                && final(read).position() == next,
            Parsed::Failed { kind, at } => r matches Err(e) && is_error(
                e,
                old(read).first_line(),
                old(read).input(),
                kind,
                at,
            ) && final(read).position() == at,
        },
        r is Err ==> final(buffer)@ == old(buffer)@,
{
    let v = parse_hex(read, n)?;
    if v <= 0x10FFFF && !(0xD800 <= v && v <= 0xDFFF) {
        push_scalar(buffer, v);
        Ok(())
    } else {
        Err(read.error(TurtleErrorKind::InvalidCodePoint(v)))
    }
}

/// Decodes the escape whose backslash was consumed, and appends what it
/// stands for.
fn parse_escape(read: &mut OneLookAheadLineByteReader, buffer: &mut Vec<u8>) -> (r: Result<
    (),
    TurtleError,
>)
    requires
        old(read).wf(),
    ensures
        final(read).wf(),
        final(read).input() == old(read).input(),
        final(read).first_line() == old(read).first_line(),
        match escape(old(read).input(), old(read).position()) {
            Parsed::Done { value, next } => r is Ok && final(buffer)@ == old(buffer)@ + value
                && final(read).position() == next,
            Parsed::Failed { kind, at } => r matches Err(e) && is_error(
                e,
                old(read).first_line(),
                old(read).input(),
                kind,
                at,
            ) && final(read).position() == at,
        },
        r is Err ==> final(buffer)@ == old(buffer)@,
{
    let b = match read.current() {
        Some(b) => b,
        None => {
            return Err(read.unexpected_char_error());
        },
    };
    let decoded: u8 = if b == LOWER_T {
        TAB
    } else if b == LOWER_B {
        BACKSPACE
    } else if b == LOWER_N {
        LINE_FEED
    } else if b == LOWER_R {
        CARRIAGE_RETURN
    } else if b == LOWER_F {
        FORM_FEED
    } else if b == QUOTE || b == APOSTROPHE || b == BACKSLASH {
        b
    } else if b == LOWER_U {
        read.consume();
        return parse_code_point(read, buffer, 4);
    } else if b == UPPER_U {
        read.consume();
        return parse_code_point(read, buffer, 8);
    } else {
        return Err(read.unexpected_char_error());
    };
    read.consume();
    buffer.push(decoded);
    assert(buffer@ =~= old(buffer)@ + seq![decoded]);
    Ok(())
}

/// Tells whether a byte stands for itself inside an identifier.
fn is_iri_plain(b: u8) -> (r: bool)
    ensures
        r == iri_plain(b),
{
    b > SPACE && b != LESS && b != GREATER && b != QUOTE && b != LEFT_BRACE && b != RIGHT_BRACE
        && b != BAR && b != CARET && b != BACKTICK && b != BACKSLASH
}

/// Tells whether a byte may begin the label of a blank node.
fn is_label_start(b: u8) -> (r: bool)
    ensures
        r == label_start(b),
{
    (UPPER_A <= b && b <= UPPER_Z) || (LOWER_A <= b && b <= LOWER_Z) || (DIGIT_0 <= b && b
        <= DIGIT_9) || b == UNDERSCORE || b == COLON || b >= 0x80
}

/// Tells whether a byte may stand inside the label of a blank node.
fn is_label_byte(b: u8) -> (r: bool)
    ensures
        r == label_byte(b),
{
    is_label_start(b) || b == HYPHEN
}

/// Tells whether a byte is an ASCII letter.
fn is_ascii_letter(b: u8) -> (r: bool)
    ensures
        r == is_letter(b),
{
    (UPPER_A <= b && b <= UPPER_Z) || (LOWER_A <= b && b <= LOWER_Z)
}

/// Tells whether a byte may stand inside a language tag.
fn is_tag_byte(b: u8) -> (r: bool)
    ensures
        r == tag_byte(b),
{
    is_ascii_letter(b) || (DIGIT_0 <= b && b <= DIGIT_9) || b == HYPHEN
}

/// Tells whether a byte may stand in the scheme of an identifier behind
/// its first letter.
fn is_scheme_byte(b: u8) -> (r: bool)
    ensures
        r == scheme_byte(b),
{
    is_ascii_letter(b) || (DIGIT_0 <= b && b <= DIGIT_9) || b == PLUS || b == HYPHEN || b
        == FULL_STOP
}

/// Tells whether an identifier begins with a scheme.
fn has_scheme(iri: &Vec<u8>) -> (r: bool)
    ensures
        r == is_absolute(iri@),
{
    if iri.len() == 0 || !is_ascii_letter(iri[0]) {
        return false;
    }
    let mut j: usize = 1;
    while j < iri.len() && is_scheme_byte(iri[j])
        invariant
            1 <= j <= iri.len(),
            scheme_end(iri@, 1) == scheme_end(iri@, j as int),
        decreases iri.len() - j,
    {
        j += 1;
    }
    j < iri.len() && iri[j] == COLON
}

/// Reads an identifier between `<` and `>`, which must be absolute, and
/// leaves its decoded bytes in the buffer.
fn parse_iriref_absolute(read: &mut OneLookAheadLineByteReader, buffer: &mut Vec<u8>) -> (r:
    Result<(), TurtleError>)
    requires
        old(read).wf(),
    ensures
        final(read).wf(),
        final(read).input() == old(read).input(),
        final(read).first_line() == old(read).first_line(),
        agrees_in(
            r,
            final(buffer)@,
            final(read).position(),
            old(read).first_line(),
            old(read).input(),
            absolute_iri_ref(old(read).input(), old(read).position()),
        ),
        r is Err ==> final(buffer)@ == after_failure(
            old(buffer)@,
            old(read).position(),
            final(read).position(),
        ),
{
    proof {
        read.lemma_position_in_input();
        if read.position() < read.input().len() {
            lemma_iri_body_in_input(read.input(), read.position() + 1, Seq::empty());
        }
    }
    parse_iriref_bytes(read, buffer)?;
    if has_scheme(buffer) {
        Ok(())
    } else {
        buffer.clear();
        Err(read.error(TurtleErrorKind::RelativeIdentifier))
    }
}

/// Reads an identifier between `<` and `>` and leaves its decoded bytes in
/// the buffer.
fn parse_iriref_bytes(read: &mut OneLookAheadLineByteReader, buffer: &mut Vec<u8>) -> (r:
    Result<(), TurtleError>)
    requires
        old(read).wf(),
    ensures
        final(read).wf(),
        final(read).input() == old(read).input(),
        final(read).first_line() == old(read).first_line(),
        agrees_in(
            r,
            final(buffer)@,
            final(read).position(),
            old(read).first_line(),
            old(read).input(),
            iri_ref(old(read).input(), old(read).position()),
        ),
        r is Err ==> final(buffer)@ == after_failure(
            old(buffer)@,
            old(read).position(),
            final(read).position(),
        ),
{
    proof {
        read.lemma_position_in_input();
    }
    read.check_is_current(LESS)?;
    buffer.clear();
    read.consume();
    loop
        invariant
            read.wf(),
            read.input() == old(read).input(),
            read.first_line() == old(read).first_line(),
            old(read).position() < read.position(),
            0 <= read.position(),
            iri_ref(old(read).input(), old(read).position()) == iri_body(
                read.input(),
                read.position(),
                buffer@,
            ),
        decreases read.input().len() - read.position(),
    {
        let b = match read.current() {
            Some(b) => b,
            None => {
                buffer.clear();
                return Err(read.unexpected_char_error());
            },
        };
        if b == GREATER {
            read.consume();
            return Ok(());
        } else if b == BACKSLASH {
            read.consume();
            proof {
                lemma_escape_advances(read.input(), read.position());
            }
            match parse_escape(read, buffer) {
                Ok(()) => {},
                Err(e) => {
                    buffer.clear();
                    return Err(e);
                },
            }
        } else if is_iri_plain(b) {
            buffer.push(b);
            read.consume();
        } else {
            buffer.clear();
            return Err(read.unexpected_char_error());
        }
    }
}

/// Reads an absolute identifier.
pub fn parse_iriref(read: &mut OneLookAheadLineByteReader, buffer: &mut Vec<u8>) -> (r: Result<
    AsRefNamedNode,
    TurtleError,
>)
    requires
        old(read).wf(),
    ensures
        final(read).wf(),
        final(read).input() == old(read).input(),
        final(read).first_line() == old(read).first_line(),
        agrees(
            r,
            final(read).position(),
            old(read).first_line(),
            old(read).input(),
            named_node(old(read).input(), old(read).position()),
        ),
        r matches Ok(n) ==> final(buffer)@ == encode_utf8(n@),
        r matches Ok(n) ==> is_absolute(encode_utf8(n@)),
        r is Err ==> final(buffer)@ == after_failure(
            old(buffer)@,
            old(read).position(),
            final(read).position(),
        ),
{
    proof {
        read.lemma_position_in_input();
        if read.position() < read.input().len() {
            lemma_iri_body_in_input(read.input(), read.position() + 1, Seq::empty());
        }
    }
    parse_iriref_absolute(read, buffer)?;
    match to_str(read, buffer) {
        Ok(iri) => Ok(AsRefNamedNode { iri }),
        Err(e) => {
            buffer.clear();
            Err(e)
        },
    }
}

/// Reads the label of a blank node behind `_:`.
fn parse_blank_node_label(read: &mut OneLookAheadLineByteReader, buffer: &mut Vec<u8>) -> (r:
    Result<AsRefBlankNode, TurtleError>)
    requires
        old(read).wf(),
    ensures
        final(read).wf(),
        final(read).input() == old(read).input(),
        final(read).first_line() == old(read).first_line(),
        agrees(
            r,
            final(read).position(),
            old(read).first_line(),
            old(read).input(),
            blank_node(old(read).input(), old(read).position()),
        ),
        r matches Ok(n) ==> final(buffer)@ == encode_utf8(n@),
        r is Err ==> final(buffer)@ == after_failure(
            old(buffer)@,
            old(read).position(),
            final(read).position(),
        ),
{
    proof {
        read.lemma_position_in_input();
    }
    read.check_is_current(UNDERSCORE)?;
    buffer.clear();
    read.consume();
    read.check_is_current(COLON)?;
    read.consume();
    let ghost s = read.input();
    let ghost start = read.position();
    proof {
        read.lemma_position_in_input();
    }
    match read.current() {
        Some(b) => {
            if is_label_start(b) {
                buffer.push(b);
                read.consume();
            } else {
                return Err(read.unexpected_char_error());
            }
        },
        None => {
            return Err(read.unexpected_char_error());
        },
    }
    assert(buffer@ =~= s.subrange(start, start + 1));
    loop
        invariant
            read.wf(),
            read.input() == s,
            read.first_line() == old(read).first_line(),
            s == old(read).input(),
            start == old(read).position() + 2,
            0 <= start < read.position() <= s.len(),
            buffer@ == s.subrange(start, read.position()),
            label_end(s, start + 1) == label_end(s, read.position()),
        ensures
            label_end(s, read.position()) == read.position(),
        decreases s.len() - read.position(),
    {
        let more = match read.current() {
            Some(b) => {
                if is_label_byte(b) {
                    true
                } else if b == FULL_STOP {
                    match read.next() {
                        Some(n) => is_label_byte(n),
                        None => false,
                    }
                } else {
                    false
                }
            },
            None => false,
        };
        if !more {
            break ;
        }
        let b = read.current().unwrap();
        buffer.push(b);
        assert(buffer@ =~= s.subrange(start, read.position() + 1));
        read.consume();
    }
    match to_str(read, buffer) {
        Ok(id) => Ok(AsRefBlankNode { id }),
        Err(e) => {
            buffer.clear();
            Err(e)
        },
    }
}

/// Reads a quoted string and leaves its decoded bytes in the buffer.
fn parse_string_literal_quote(read: &mut OneLookAheadLineByteReader, buffer: &mut Vec<u8>) -> (r:
    Result<(), TurtleError>)
    requires
        old(read).wf(),
    ensures
        final(read).wf(),
        final(read).input() == old(read).input(),
        final(read).first_line() == old(read).first_line(),
        agrees_in(
            r,
            final(buffer)@,
            final(read).position(),
            old(read).first_line(),
            old(read).input(),
            quoted(old(read).input(), old(read).position()),
        ),
        r is Err ==> final(buffer)@ == after_failure(
            old(buffer)@,
            old(read).position(),
            final(read).position(),
        ),
{
    proof {
        read.lemma_position_in_input();
    }
    read.check_is_current(QUOTE)?;
    buffer.clear();
    read.consume();
    loop
        invariant
            read.wf(),
            read.input() == old(read).input(),
            read.first_line() == old(read).first_line(),
            old(read).position() < read.position(),
            0 <= read.position(),
            quoted(old(read).input(), old(read).position()) == string_body(
                read.input(),
                read.position(),
                buffer@,
            ),
        decreases read.input().len() - read.position(),
    {
        let b = match read.current() {
            Some(b) => b,
            None => {
                buffer.clear();
                return Err(read.unexpected_char_error());
            },
        };
        if b == QUOTE {
            read.consume();
            return Ok(());
        } else if b == BACKSLASH {
            read.consume();
            proof {
                lemma_escape_advances(read.input(), read.position());
            }
            match parse_escape(read, buffer) {
                Ok(()) => {},
                Err(e) => {
                    buffer.clear();
                    return Err(e);
                },
            }
        } else if b != LINE_FEED && b != CARRIAGE_RETURN {
            buffer.push(b);
            read.consume();
        } else {
            buffer.clear();
            return Err(read.unexpected_char_error());
        }
    }
}

/// Reads a language tag behind `@` and leaves it in the buffer.
fn parse_langtag(read: &mut OneLookAheadLineByteReader, buffer: &mut Vec<u8>) -> (r: Result<
    (),
    TurtleError,
>)
    requires
        old(read).wf(),
    ensures
        final(read).wf(),
        final(read).input() == old(read).input(),
        final(read).first_line() == old(read).first_line(),
        agrees_in(
            r,
            final(buffer)@,
            final(read).position(),
            old(read).first_line(),
            old(read).input(),
            lang_tag(old(read).input(), old(read).position()),
        ),
        r is Err ==> final(buffer)@ == after_failure(
            old(buffer)@,
            old(read).position(),
            final(read).position(),
        ),
{
    proof {
        read.lemma_position_in_input();
    }
    read.check_is_current(AT)?;
    buffer.clear();
    read.consume();
    let ghost s = read.input();
    let ghost start = read.position();
    proof {
        read.lemma_position_in_input();
    }
    match read.current() {
        Some(b) => {
            if is_ascii_letter(b) {
                buffer.push(b);
                read.consume();
            } else {
                return Err(read.unexpected_char_error());
            }
        },
        None => {
            return Err(read.unexpected_char_error());
        },
    }
    assert(buffer@ =~= s.subrange(start, start + 1));
    loop
        invariant
            read.wf(),
            read.input() == s,
            read.first_line() == old(read).first_line(),
            s == old(read).input(),
            start == old(read).position() + 1,
            0 <= start < read.position() <= s.len(),
            buffer@ == s.subrange(start, read.position()),
            tag_end(s, start + 1) == tag_end(s, read.position()),
        ensures
            tag_end(s, read.position()) == read.position(),
        decreases s.len() - read.position(),
    {
        match read.current() {
            Some(b) => {
                if is_tag_byte(b) {
                    buffer.push(b);
                    assert(buffer@ =~= s.subrange(start, read.position() + 1));
                    read.consume();
                } else {
                    break ;
                }
            },
            None => {
                break ;
            },
        }
    }
    Ok(())
}

/// Reads a literal, whatever becomes of the buffers where it cannot be
/// read.
fn read_literal(
    read: &mut OneLookAheadLineByteReader,
    buffer: &mut Vec<u8>,
    annotation_buffer: &mut Vec<u8>,
) -> (r: Result<AsRefLiteral, TurtleError>)
    requires
        old(read).wf(),
    ensures
        final(read).wf(),
        final(read).input() == old(read).input(),
        final(read).first_line() == old(read).first_line(),
        agrees(
            r,
            final(read).position(),
            old(read).first_line(),
            old(read).input(),
            literal(old(read).input(), old(read).position()),
        ),
        r matches Ok(l) ==> final(buffer)@ == encode_utf8(l@.value()),
        r matches Ok(l) ==> final(annotation_buffer)@ == if l@.is_annotated() {
            encode_utf8(l@.annotation())
        } else {
            old(annotation_buffer)@
        },
{
    parse_string_literal_quote(read, buffer)?;
    skip_whitespace(read);
    match read.current() {
        Some(AT) => {
            parse_langtag(read, annotation_buffer)?;
            let value = to_str(read, buffer)?;
            let language = to_str(read, annotation_buffer)?;
            Ok(AsRefLiteral::LanguageTaggedString { value, language })
        },
        Some(CARET) => {
            read.consume();
            read.check_is_current(CARET)?;
            read.consume();
            skip_whitespace(read);
            let value = to_str(read, buffer)?;
            let datatype = parse_iriref(read, annotation_buffer)?;
            Ok(AsRefLiteral::Typed { value, datatype })
        },
        _ => {
            match to_str(read, buffer) {
                Ok(value) => Ok(AsRefLiteral::Simple { value }),
                Err(e) => Err(e),
            }
        },
    }
}

/// Reads a literal: a quoted string with a language tag, with a datatype,
/// or with neither. Where no literal can be read, the buffers are left as
/// they were if not even the quote is found, and empty otherwise.
pub fn parse_literal(
    read: &mut OneLookAheadLineByteReader,
    buffer: &mut Vec<u8>,
    annotation_buffer: &mut Vec<u8>,
) -> (r: Result<AsRefLiteral, TurtleError>)
    requires
        old(read).wf(),
    ensures
        final(read).wf(),
        final(read).input() == old(read).input(),
        final(read).first_line() == old(read).first_line(),
        agrees(
            r,
            final(read).position(),
            old(read).first_line(),
            old(read).input(),
            literal(old(read).input(), old(read).position()),
        ),
        r matches Ok(l) ==> final(buffer)@ == encode_utf8(l@.value()),
        r matches Ok(l) ==> final(annotation_buffer)@ == if l@.is_annotated() {
            encode_utf8(l@.annotation())
        } else {
            old(annotation_buffer)@
        },
        r is Err ==> final(buffer)@ == after_failure(
            old(buffer)@,
            old(read).position(),
            final(read).position(),
        ),
        r is Err ==> final(annotation_buffer)@ == after_failure(
            old(annotation_buffer)@,
            old(read).position(),
            final(read).position(),
        ),
{
    proof {
        read.lemma_position_in_input();
    }
    match read.current() {
        Some(QUOTE) => {},
        _ => {
            return Err(read.unexpected_char_error());
        },
    }
    proof {
        lemma_fails_behind_first_byte(read.input(), read.position());
    }
    match read_literal(read, buffer, annotation_buffer) {
        Ok(l) => Ok(l),
        Err(e) => {
            buffer.clear();
            annotation_buffer.clear();
            Err(e)
        },
    }
}

/// Reads an object: an identifier, a blank node or a literal.
pub fn parse_term(
    read: &mut OneLookAheadLineByteReader,
    buffer: &mut Vec<u8>,
    annotation_buffer: &mut Vec<u8>,
) -> (r: Result<AsRefTerm, TurtleError>)
    requires
        old(read).wf(),
    ensures
        final(read).wf(),
        final(read).input() == old(read).input(),
        final(read).first_line() == old(read).first_line(),
        agrees(
            r,
            final(read).position(),
            old(read).first_line(),
            old(read).input(),
            object(old(read).input(), old(read).position()),
        ),
        r matches Ok(t) ==> final(buffer)@ == encode_utf8(t@.text()),
        r matches Ok(t) ==> final(annotation_buffer)@ == if t@.is_annotated() {
            encode_utf8(t@.annotation())
        } else {
            old(annotation_buffer)@
        },
        r is Err ==> final(buffer)@ == after_failure(
            old(buffer)@,
            old(read).position(),
            final(read).position(),
        ),
        r is Err ==> final(annotation_buffer)@ == after_failure(
            old(annotation_buffer)@,
            old(read).position(),
            final(read).position(),
        ),
{
    proof {
        read.lemma_position_in_input();
        if read.position() < read.input().len() {
            lemma_fails_behind_first_byte(read.input(), read.position());
        }
    }
    match read.current() {
        Some(LESS) => match parse_iriref(read, buffer) {
            Ok(n) => Ok(AsRefTerm::NamedNode(n)),
            Err(e) => {
                annotation_buffer.clear();
                Err(e)
            },
        },
        Some(UNDERSCORE) => match parse_blank_node_label(read, buffer) {
            Ok(n) => Ok(AsRefTerm::BlankNode(n)),
            Err(e) => {
                annotation_buffer.clear();
                Err(e)
            },
        },
        Some(QUOTE) => match parse_literal(read, buffer, annotation_buffer) {
            Ok(l) => Ok(AsRefTerm::Literal(l)),
            Err(e) => Err(e),
        },
        _ => Err(read.unexpected_char_error()),
    }
}

/// Reads a subject: an identifier or a blank node.
pub fn parse_named_or_blank_node(
    read: &mut OneLookAheadLineByteReader,
    buffer: &mut Vec<u8>,
) -> (r: Result<AsRefNamedOrBlankNode, TurtleError>)
    requires
        old(read).wf(),
    ensures
        final(read).wf(),
        final(read).input() == old(read).input(),
        final(read).first_line() == old(read).first_line(),
        agrees(
            r,
            final(read).position(),
            old(read).first_line(),
            old(read).input(),
            subject(old(read).input(), old(read).position()),
        ),
        r matches Ok(n) ==> final(buffer)@ == encode_utf8(n@.text()),
        r is Err ==> final(buffer)@ == after_failure(
            old(buffer)@,
            old(read).position(),
            final(read).position(),
        ),
{
    match read.current() {
        Some(LESS) => match parse_iriref(read, buffer) {
            Ok(n) => Ok(AsRefNamedOrBlankNode::NamedNode(n)),
            Err(e) => Err(e),
        },
        Some(UNDERSCORE) => match parse_blank_node_label(read, buffer) {
            Ok(n) => Ok(AsRefNamedOrBlankNode::BlankNode(n)),
            Err(e) => Err(e),
        },
        _ => Err(read.unexpected_char_error()),
    }
}

/// Tells whether nothing but a comment or the end of the line stands at the
/// current position.
fn at_line_end(read: &OneLookAheadLineByteReader) -> (r: bool)
    requires
        read.wf(),
    ensures
        r == ends_line(read.input(), read.position()),
{
    match read.current() {
        None => true,
        Some(b) => b == HASH || b == CARRIAGE_RETURN || b == LINE_FEED,
    }
}

/// Reads one line. An empty line and a line that holds a comment only give
/// no triple; any other line gives the triple of its one statement, or the
/// error of the first violation of the grammar. On success the source
/// stands behind the line; on failure it stands where the violation was
/// found.
///
/// The buffers are working space. A line that states no triple leaves them
/// as they were, and so does a line on which not even a subject begins.
/// After a triple they hold, as UTF-8, the text of the subject, of the
/// predicate and of the object, and the language tag or datatype of the
/// object, where it has one; their allocations are kept. A violation found
/// behind the first byte of a statement leaves them empty.
pub fn parse_line(
    read: &mut OneLookAheadLineByteReader,
    subject_buf: &mut Vec<u8>,
    predicate_buf: &mut Vec<u8>,
    object_buf: &mut Vec<u8>,
    object_annotation_buf: &mut Vec<u8>,
) -> (r: Result<Option<AsRefTriple>, TurtleError>)
    requires
        old(read).wf(),
    ensures
        final(read).wf(),
        final(read).input() == old(read).input(),
        final(read).first_line() == old(read).first_line(),
        agrees_line(
            r,
            final(read).position(),
            old(read).first_line(),
            old(read).input(),
            statement(old(read).input(), old(read).position()),
        ),
        match r {
            Ok(Some(t)) => {
                &&& final(subject_buf)@ == encode_utf8(t@.subject.text())
                &&& final(predicate_buf)@ == encode_utf8(t@.predicate)
                &&& final(object_buf)@ == encode_utf8(t@.object.text())
                &&& final(object_annotation_buf)@ == encode_utf8(t@.object.annotation())
            },
            Ok(None) => {
                &&& final(subject_buf)@ == old(subject_buf)@
                &&& final(predicate_buf)@ == old(predicate_buf)@
                &&& final(object_buf)@ == old(object_buf)@
                &&& final(object_annotation_buf)@ == old(object_annotation_buf)@
            },
            Err(_) => {
                let entry = after_blanks(old(read).input(), old(read).position());
                let at = final(read).position();
                &&& final(subject_buf)@ == after_failure(old(subject_buf)@, entry, at)
                &&& final(predicate_buf)@ == after_failure(old(predicate_buf)@, entry, at)
                &&& final(object_buf)@ == after_failure(old(object_buf)@, entry, at)
                &&& final(object_annotation_buf)@ == after_failure(
                    old(object_annotation_buf)@,
                    entry,
                    at,
                )
            },
        },
{
    proof {
        read.lemma_position_in_input();
        lemma_statement_fails_behind_first_byte(read.input(), read.position());
    }
    skip_whitespace(read);
    if at_line_end(read) {
        skip_until_eol(read);
        return Ok(None);
    }
    match read.current() {
        Some(LESS) => {},
        Some(UNDERSCORE) => {},
        _ => {
            return Err(read.unexpected_char_error());
        },
    }
    subject_buf.clear();
    predicate_buf.clear();
    object_buf.clear();
    object_annotation_buf.clear();
    let subject = parse_named_or_blank_node(read, subject_buf)?;
    skip_whitespace(read);
    let predicate = match parse_iriref(read, predicate_buf) {
        Ok(n) => n,
        Err(e) => {
            subject_buf.clear();
            return Err(e);
        },
    };
    skip_whitespace(read);
    let object = match parse_term(read, object_buf, object_annotation_buf) {
        Ok(t) => t,
        Err(e) => {
            subject_buf.clear();
            predicate_buf.clear();
            return Err(e);
        },
    };
    skip_whitespace(read);
    let ended = match read.check_is_current(FULL_STOP) {
        Ok(()) => {
            read.consume();
            skip_whitespace(read);
            if at_line_end(read) {
                Ok(())
            } else {
                Err(read.unexpected_char_error())
            }
        },
        Err(e) => Err(e),
    };
    match ended {
        Ok(()) => {
            skip_until_eol(read);
            Ok(Some(AsRefTriple { subject, predicate, object }))
        },
        Err(e) => {
            subject_buf.clear();
            predicate_buf.clear();
            object_buf.clear();
            object_annotation_buf.clear();
            Err(e)
        },
    }
}

/// The model of a list of triples.
pub open spec fn triples_view(triples: Seq<AsRefTriple>) -> Seq<TripleView> {
    Seq::new(triples.len(), |i: int| triples[i]@)
}

/// A streaming parser of N-Triples over a buffer of bytes.
///
/// The decoded text of each term is gathered in one of four buffers, which
/// are emptied and used again for every line, so that the working memory of
/// the parser grows with the longest line and not with the input.
pub struct NTriplesParser {
    read: OneLookAheadLineByteReader,
    subject_buf: Vec<u8>,
    predicate_buf: Vec<u8>,
    object_buf: Vec<u8>,
    object_annotation_buf: Vec<u8>,
}

impl NTriplesParser {
    /// The bytes that the parser holds: the input, or the part of it that
    /// was handed over last.
    pub closed spec fn input(&self) -> Seq<u8> {
        self.read.input()
    }

    /// The number of the line on which the buffer begins.
    pub closed spec fn first_line(&self) -> nat {
        self.read.first_line()
    }

    /// The number of bytes consumed.
    pub closed spec fn position(&self) -> int {
        self.read.position()
    }

    /// The source is in order, and the buffers are empty: they hold text
    /// only while a line is read.
    pub closed spec fn wf(&self) -> bool {
        self.read.wf() && self.buffers_empty()
    }

    /// Whether the four buffers of the parser are empty.
    pub closed spec fn buffers_empty(&self) -> bool {
        &&& self.subject_buf@.len() == 0
        &&& self.predicate_buf@.len() == 0
        &&& self.object_buf@.len() == 0
        &&& self.object_annotation_buf@.len() == 0
    }

    /// The position of a parser lies in what it holds, and its buffers are
    /// empty.
    pub proof fn lemma_position_in_input(&self)
        requires
            self.wf(),
        ensures
            0 <= self.position() <= self.input().len(),
            self.buffers_empty(),
    {
        self.read.lemma_position_in_input();
    }

    /// A parser at the start of `input`. The input is shorter than the
    /// largest `usize`, so that its lines can be counted.
    pub fn new(input: Vec<u8>) -> (r: Self)
        requires
            input@.len() < usize::MAX,
        ensures
            r.wf(),
            r.buffers_empty(),
            r.input() == input@,
            r.first_line() == 1,
            r.position() == 0,
    {
        NTriplesParser {
            read: OneLookAheadLineByteReader::new(input),
            subject_buf: Vec::new(),
            predicate_buf: Vec::new(),
            object_buf: Vec::new(),
            object_annotation_buf: Vec::new(),
        }
    }

    /// Reads the next line and gives the triple that it states, if it
    /// states one. After an error the parser stands where the violation was
    /// found. The text of the triple was gathered in the buffers of the
    /// parser, where it took fewer bytes than the line has; the buffers are
    /// empty again when the step returns.
    pub fn parse_step(&mut self) -> (r: Result<Option<AsRefTriple>, TurtleError>)
        requires
            old(self).wf(),
        ensures
            final(self).wf(),
            final(self).buffers_empty(),
            final(self).input() == old(self).input(),
            final(self).first_line() == old(self).first_line(),
            agrees_line(
                r,
                final(self).position(),
                old(self).first_line(),
                old(self).input(),
                statement(old(self).input(), old(self).position()),
            ),
            r matches Ok(Some(t)) ==> buffered_len(t@) < final(self).position() - old(
                self,
            ).position(),
    {
        proof {
            self.read.lemma_position_in_input();
            lemma_buffers_fit_line(self.read.input(), self.read.position());
        }
        let result = parse_line(
            &mut self.read,
            &mut self.subject_buf,
            &mut self.predicate_buf,
            &mut self.object_buf,
            &mut self.object_annotation_buf,
        );
        self.subject_buf.clear();
        self.predicate_buf.clear();
        self.object_buf.clear();
        self.object_annotation_buf.clear();
        result
    }

    /// Reads every line up to the end of what the parser holds and gives the
    /// triples that the lines state, in order. Reading stops at the first
    /// violation, where the parser then stands.
    pub fn parse_all(&mut self) -> (r: Result<Vec<AsRefTriple>, TurtleError>)
        requires
            old(self).wf(),
        ensures
            final(self).wf(),
            final(self).input() == old(self).input(),
            final(self).first_line() == old(self).first_line(),
            match document_from(old(self).input(), old(self).position(), Seq::empty()) {
                Parsed::Done { value, next } => r matches Ok(v) && triples_view(v@) == value
                    && final(self).position() == next,
                Parsed::Failed { kind, at } => r matches Err(e) && is_error(
                    e,
                    old(self).first_line(),
                    old(self).input(),
                    kind,
                    at,
                ) && final(self).position() == at,
            },
    {
        let mut triples: Vec<AsRefTriple> = Vec::new();
        assert(triples_view(triples@) =~= Seq::empty());
        loop
            invariant
                self.wf(),
                self.input() == old(self).input(),
                self.first_line() == old(self).first_line(),
                document_from(old(self).input(), old(self).position(), Seq::empty())
                    == document_from(self.input(), self.position(), triples_view(triples@)),
            decreases self.input().len() - self.position(),
        {
            proof {
                self.read.lemma_position_in_input();
                lemma_statement_advances(self.input(), self.position());
            }
            if self.is_end() {
                return Ok(triples);
            }
            match self.parse_step() {
                Ok(Some(t)) => {
                    let ghost before = triples_view(triples@);
                    triples.push(t);
                    assert(triples_view(triples@) =~= before.push(t@));
                },
                Ok(None) => {},
                Err(e) => {
                    return Err(e);
                },
            }
        }
    }

    /// Goes on with the next part of the input, which begins on the line
    /// that the parser has reached. The buffer of the parser is exchanged for
    /// `input`; the old buffer comes back in `input`, to be filled again. A
    /// part ends where a line ends, so that no statement lies across two
    /// parts. The count of lines must stay below the largest `usize`.
    pub fn refill(&mut self, input: &mut Vec<u8>)
        requires
            old(self).wf(),
            line_at(old(self).first_line(), old(self).input(), old(self).position()) + old(
                input,
            )@.len() <= usize::MAX,
        ensures
            final(self).wf(),
            final(self).input() == old(input)@,
            final(input)@ == old(self).input(),
            final(self).position() == 0,
            final(self).first_line() == line_at(
                old(self).first_line(),
                old(self).input(),
                old(self).position(),
            ),
    {
        self.read.refill(input);
    }

    /// The number of the line that the parser has reached, counted from
    /// one.
    pub fn line_number(&self) -> (r: usize)
        requires
            self.wf(),
        ensures
            r == line_at(self.first_line(), self.input(), self.position()),
    {
        self.read.line_number()
    }

    /// Whether the whole buffer was consumed.
    pub fn is_end(&self) -> (r: bool)
        requires
            self.wf(),
        ensures
            r == (self.position() >= self.input().len()),
    {
        proof {
            self.read.lemma_position_in_input();
        }
        self.read.current().is_none()
    }

    /// Moves behind the end of the current line, so that reading can go on
    /// with the next line after an error.
    pub fn skip_line(&mut self)
        requires
            old(self).wf(),
        ensures
            final(self).wf(),
            final(self).input() == old(self).input(),
            final(self).first_line() == old(self).first_line(),
            final(self).position() == after_line(old(self).input(), old(self).position()),
    {
        skip_until_eol(&mut self.read);
    }
}

} // verus!
