//! A source of bytes that shows one byte at a time.
//!
//! The source presents the next unconsumed byte of its input, or the end of
//! the input, and counts the lines that were crossed.

use vstd::prelude::*;
use crate::ascii::LINE_FEED;
use crate::error::{TurtleError, TurtleErrorKind};

verus! {

/// The number of line feeds among the first `n` bytes of `s`.
pub open spec fn line_feeds(s: Seq<u8>, n: int) -> nat
    decreases n,
{
    if n <= 0 || n > s.len() {
        0
    } else if s[n - 1] == LINE_FEED {
        line_feeds(s, n - 1) + 1
    } else {
        line_feeds(s, n - 1)
    }
}

/// The number of the line that holds position `at` of `s`, where `s`
/// begins on line `first`. The byte after a line feed begins a new line.
pub open spec fn line_at(first: nat, s: Seq<u8>, at: int) -> nat {
    first + line_feeds(s, at)
}

/// The byte at position `at` of `s`, or `None` at the end.
pub open spec fn byte_at(s: Seq<u8>, at: int) -> Option<u8> {
    if 0 <= at < s.len() {
        Some(s[at])
    } else {
        None
    }
}

/// The error that an offending position gives: its byte, or the end of the
/// input.
pub open spec fn unexpected_kind(s: Seq<u8>, at: int) -> TurtleErrorKind {
    match byte_at(s, at) {
        Some(b) => TurtleErrorKind::UnexpectedByte(b),
        None => TurtleErrorKind::PrematureEof,
    }
}

/// There are no more line feeds before a position than bytes.
pub proof fn lemma_line_feeds_bound(s: Seq<u8>, n: int)
    requires
        0 <= n <= s.len(),
    ensures
        line_feeds(s, n) <= n,
    decreases n,
{
    if n > 0 {
        lemma_line_feeds_bound(s, n - 1);
    }
}

/// A source over a buffer of bytes. The buffer holds the input, or a part of
/// it that ends where a line ends; the source counts lines across the parts
/// that it is given one after the other.
pub struct OneLookAheadLineByteReader {
    input: Vec<u8>,
    position: usize,
    first_line: usize,
    line_number: usize,
}

impl OneLookAheadLineByteReader {
    /// The bytes in the buffer.
    pub closed spec fn input(&self) -> Seq<u8> {
        self.input@
    }

    /// The number of the line on which the buffer begins, counted from one
    /// at the start of the whole input.
    pub closed spec fn first_line(&self) -> nat {
        self.first_line as nat
    }

    /// The number of bytes consumed.
    pub closed spec fn position(&self) -> int {
        self.position as int
    }

    /// The position lies in the input, and the line count is that of the
    /// position.
    pub closed spec fn wf(&self) -> bool {
        &&& self.position <= self.input@.len()
        &&& self.first_line + self.input@.len() <= usize::MAX
        &&& self.line_number == line_at(self.first_line as nat, self.input@, self.position as int)
    }

    /// The position of a source lies in its input.
    pub proof fn lemma_position_in_input(&self)
        requires
            self.wf(),
        ensures
            0 <= self.position() <= self.input().len(),
    {
    }

    /// A source at the start of `input`, on line one. The input is shorter
    /// than the largest `usize`, so that its lines can be counted.
    pub fn new(input: Vec<u8>) -> (r: Self)
        requires
            input@.len() < usize::MAX,
        ensures
            r.wf(),
            r.input() == input@,
            r.first_line() == 1,
            r.position() == 0,
    {
        OneLookAheadLineByteReader { input, position: 0, first_line: 1, line_number: 1 }
    }

    /// Goes on with the next part of the input: the buffer of the source is
    /// exchanged for `input`, which begins on the line that the source has
    /// reached. The old buffer comes back in `input`, to be filled again.
    /// What was not consumed of it is passed over. The count of lines must
    /// stay below the largest `usize`.
    pub fn refill(&mut self, input: &mut Vec<u8>)
        requires
            old(self).wf(),
            line_at(old(self).first_line(), old(self).input(), old(self).position()) + old(
                input,
            )@.len() <= usize::MAX,
        ensures
            final(self).wf(),
            final(self).input() == old(input)@,
            final(input)@ == old(self).input(),
            final(self).position() == 0,
            final(self).first_line() == line_at(
                old(self).first_line(),
                old(self).input(),
                old(self).position(),
            ),
    {
        std::mem::swap(&mut self.input, input);
        self.position = 0;
        self.first_line = self.line_number;
    }

    /// The next byte, or `None` at the end of the input. The end is stable:
    /// it is shown again however often it is asked for.
    pub fn current(&self) -> (r: Option<u8>)
        requires
            self.wf(),
        ensures
            r == byte_at(self.input(), self.position()),
    {
        if self.position < self.input.len() {
            Some(self.input[self.position])
        } else {
            None
        }
    }

    /// The byte after the next one, or `None` where there is none.
    pub fn next(&self) -> (r: Option<u8>)
        requires
            self.wf(),
        ensures
            r == byte_at(self.input(), self.position() + 1),
    {
        if self.position < self.input.len() && self.position + 1 < self.input.len() {
            Some(self.input[self.position + 1])
        } else {
            None
        }
    }

    /// The number of the current line, counted from one.
    pub fn line_number(&self) -> (r: usize)
        requires
            self.wf(),
        ensures
            r == line_at(self.first_line(), self.input(), self.position()),
    {
        self.line_number
    }

    /// Moves past the current byte. At the end of the input nothing changes.
    pub fn consume(&mut self)
        requires
            old(self).wf(),
        ensures
            final(self).wf(),
            final(self).input() == old(self).input(),
            final(self).first_line() == old(self).first_line(),
            0 <= final(self).position() <= final(self).input().len(),
            final(self).position() == if old(self).position() < old(self).input().len() {
                old(self).position() + 1
            } else {
                old(self).position()
            },
    {
        if self.position < self.input.len() {
            proof {
                lemma_line_feeds_bound(self.input@, self.position as int);
            }
            if self.input[self.position] == LINE_FEED {
                self.line_number = self.line_number + 1;
            }
            self.position = self.position + 1;
        }
    }

    /// The error for a byte, or an end of input, that the grammar does not
    /// allow at the current position.
    pub fn unexpected_char_error(&self) -> (r: TurtleError)
        requires
            self.wf(),
        ensures
            is_error(
                r,
                self.first_line(),
                self.input(),
                unexpected_kind(self.input(), self.position()),
                self.position(),
            ),
    {
        let kind = match self.current() {
            Some(b) => TurtleErrorKind::UnexpectedByte(b),
            None => TurtleErrorKind::PrematureEof,
        };
        TurtleError { kind, line_number: self.line_number }
    }

    /// Succeeds exactly where the current byte is `expected`.
    pub fn check_is_current(&self, expected: u8) -> (r: Result<(), TurtleError>)
        requires
            self.wf(),
        ensures
            match r {
                Ok(()) => byte_at(self.input(), self.position()) == Some(expected),
                Err(e) => byte_at(self.input(), self.position()) != Some(expected) && is_error(
                    e,
                    self.first_line(),
                    self.input(),
                    unexpected_kind(self.input(), self.position()),
                    self.position(),
                ),
            },
    {
        match self.current() {
            Some(b) if b == expected => Ok(()),
            _ => Err(self.unexpected_char_error()),
        }
    }

    /// An error of the given kind on the current line.
    pub fn error(&self, kind: TurtleErrorKind) -> (r: TurtleError)
        requires
            self.wf(),
        ensures
            is_error(r, self.first_line(), self.input(), kind, self.position()),
    {
        TurtleError { kind, line_number: self.line_number }
    }
}

/// Whether `e` is the error of the given kind on the line of position `at`
/// of `s`, where `s` begins on line `first`.
pub open spec fn is_error(
    e: TurtleError,
    first: nat,
    s: Seq<u8>,
    kind: TurtleErrorKind,
    at: int,
) -> bool {
    e.kind == kind && e.line_number == line_at(first, s, at)
}

} // verus!
