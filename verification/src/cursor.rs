//! A cursor over the text being parsed: the text and an offset into it.
//!
//! Every consuming operation is atomic. It either succeeds and moves the
//! offset past what it consumed, or fails and leaves the offset where it was,
//! so a caller can try something else from the same place.

use crate::error::{ErrorKind, Failure, ParseError};
use crate::lexical::{
    absent, digits_end, find, has_byte, is_digit, is_whitespace, lemma_digits_end_is, lemma_find_is,
    lemma_find_none, lemma_whitespace_end_is, occurs_at, whitespace_end,
};
use crate::text::{
    lemma_boundary_after_ascii, lemma_boundary_after_text, lemma_boundary_before_text,
    lemma_boundary_in_prefix,
};
use vstd::prelude::*;
use vstd::string::*;
use vstd::utf8::*;

verus! {

/// A position in a text. The offset counts bytes of the text's UTF-8
/// encoding and always falls between two characters.
#[derive(Clone, Copy, Debug)]
pub struct Cursor<'a> {
    text: &'a str,
    pos: usize,
}

/// The length of `text` in bytes.
fn byte_len(text: &str) -> (len: usize)
    ensures
        len == text.spec_bytes().len(),
{
    text.as_bytes().len()
}

/// The piece of `text` between two character boundaries.
fn span<'a>(text: &'a str, from: usize, to: usize) -> (piece: &'a str)
    requires
        from <= to <= text.spec_bytes().len(),
        is_char_boundary(text.spec_bytes(), from as int),
        is_char_boundary(text.spec_bytes(), to as int),
    ensures
        piece.spec_bytes() == text.spec_bytes().subrange(from as int, to as int),
{
    broadcast use encode_utf8_valid_utf8;

    let (head, _) = text.split_at(to);
    proof {
        lemma_boundary_in_prefix(text.spec_bytes(), from as int, to as int);
    }
    let (_, piece) = head.split_at(from);
    assert(piece.spec_bytes() =~= text.spec_bytes().subrange(from as int, to as int));
    piece
}

impl<'a> Cursor<'a> {
    #[verifier::type_invariant]
    spec fn well_formed(&self) -> bool {
        &&& self.pos <= self.text.spec_bytes().len()
        &&& is_char_boundary(self.text.spec_bytes(), self.pos as int)
    }

    /// The bytes of the whole text, consumed or not.
    pub closed spec fn input(&self) -> Seq<u8> {
        self.text.spec_bytes()
    }

    /// The number of bytes consumed so far.
    pub closed spec fn offset(&self) -> int {
        self.pos as int
    }

    /// A cursor at the start of `text`.
    pub fn new(text: &'a str) -> (cursor: Cursor<'a>)
        ensures
            cursor.input() == text.spec_bytes(),
            cursor.offset() == 0,
    {
        broadcast use encode_utf8_valid_utf8;

        Cursor { text, pos: 0 }
    }

    /// The current offset. It never exceeds the length of the input, which
    /// is the encoding of a text.
    pub fn position(&self) -> (pos: usize)
        ensures
            pos == self.offset(),
            0 <= self.offset() <= self.input().len(),
            valid_utf8(self.input()),
    {
        broadcast use encode_utf8_valid_utf8;

        proof {
            use_type_invariant(self);
        }
        self.pos
    }

    /// Whether the whole input has been consumed.
    pub fn is_exhausted(&self) -> (done: bool)
        ensures
            done <==> self.offset() == self.input().len(),
            0 <= self.offset() <= self.input().len(),
    {
        proof {
            use_type_invariant(self);
        }
        self.pos == byte_len(self.text)
    }

    /// The next character, if any, without consuming it.
    pub fn peek(&self) -> (next: Option<char>)
        ensures
            0 <= self.offset() <= self.input().len(),
            match next {
                Some(c) => {
                    let rest = self.input().subrange(self.offset(), self.input().len() as int);
                    self.offset() < self.input().len() && c == decode_utf8(rest)[0]
                },
                None => self.offset() == self.input().len(),
            },
    {
        broadcast use {
            encode_utf8_valid_utf8,
            encode_utf8_decode_utf8,
            is_char_boundary_start_end_of_seq,
            group_string_axioms,
        };

        proof {
            use_type_invariant(self);
        }
        let rest = span(self.text, self.pos, byte_len(self.text));
        assert(decode_utf8(rest.spec_bytes()) == rest@);
        assert(rest@.len() == 0 <==> rest.spec_bytes().len() == 0);
        let mut chars = rest.chars();
        chars.next()
    }

    /// Consumes whitespace, as much as there is. This cannot fail.
    #[verifier::loop_isolation(false)]
    pub fn skip_whitespace(&mut self)
        ensures
            final(self).input() == old(self).input(),
            final(self).offset() == whitespace_end(old(self).input(), old(self).offset()),
            old(self).offset() <= final(self).offset() <= old(self).input().len(),
    {
        broadcast use encode_utf8_valid_utf8;

        proof {
            use_type_invariant(&*self);
        }
        let bytes = self.text.as_bytes();
        let start = self.pos;
        let mut end = start;
        while end < bytes.len() && (bytes[end] == 0x20 || bytes[end] == 0x09 || bytes[end] == 0x0a
            || bytes[end] == 0x0d)
            invariant
                bytes@ == self.text.spec_bytes(),
                start <= end <= bytes@.len(),
                forall|i: int| start <= i < end ==> is_whitespace(#[trigger] bytes@[i]),
            decreases bytes@.len() - end,
        {
            end += 1;
        }
        proof {
            lemma_whitespace_end_is(bytes@, start as int, end as int);
            lemma_boundary_after_ascii(bytes@, start as int, end as int);
        }
        self.pos = end;
    }

    /// Consumes the ASCII byte `byte` if it is the next one. Otherwise fails
    /// at the offset, as `matches` does.
    pub(crate) fn expect(&mut self, byte: u8) -> (outcome: Result<(), ParseError>)
        requires
            byte < 0x80,
        ensures
            final(self).input() == old(self).input(),
            0 <= old(self).offset() <= old(self).input().len(),
            match outcome {
                Ok(()) => {
                    &&& has_byte(old(self).input(), old(self).offset(), byte)
                    &&& final(self).offset() == old(self).offset() + 1
                },
                Err(e) => {
                    &&& !has_byte(old(self).input(), old(self).offset(), byte)
                    &&& final(self).offset() == old(self).offset()
                    &&& e@ == absent(old(self).input(), old(self).offset())
                },
            },
    {
        broadcast use encode_utf8_valid_utf8;

        proof {
            use_type_invariant(&*self);
        }
        let bytes = self.text.as_bytes();
        let start = self.pos;
        if start < bytes.len() && bytes[start] == byte {
            proof {
                lemma_boundary_after_ascii(bytes@, start as int, start + 1);
            }
            self.pos = start + 1;
            Ok(())
        } else {
            Err(absent_at(bytes.len(), start))
        }
    }

    /// Consumes `literal` if the input holds it at the offset, byte for
    /// byte. Otherwise fails there: with `UnexpectedEnd` when nothing is
    /// left of the input, with `LiteralMismatch` when something else is.
    #[verifier::loop_isolation(false)]
    pub fn matches(&mut self, literal: &str) -> (outcome: Result<(), ParseError>)
        ensures
            final(self).input() == old(self).input(),
            0 <= old(self).offset() <= old(self).input().len(),
            match outcome {
                Ok(()) => {
                    &&& occurs_at(old(self).input(), old(self).offset(), literal.spec_bytes())
                    &&& final(self).offset() == old(self).offset() + literal.spec_bytes().len()
                },
                Err(e) => {
                    &&& !occurs_at(old(self).input(), old(self).offset(), literal.spec_bytes())
                    &&& final(self).offset() == old(self).offset()
                    &&& e@ == absent(old(self).input(), old(self).offset())
                },
            },
    {
        broadcast use encode_utf8_valid_utf8;

        proof {
            use_type_invariant(&*self);
        }
        let bytes = self.text.as_bytes();
        let wanted = literal.as_bytes();
        let start = self.pos;
        if wanted.len() > bytes.len() - start {
            return Err(absent_at(bytes.len(), start));
        }
        let mut i: usize = 0;
        while i < wanted.len()
            invariant
                bytes@ == self.text.spec_bytes(),
                wanted@ == literal.spec_bytes(),
                start + wanted@.len() <= bytes@.len(),
                i <= wanted@.len(),
                bytes@.subrange(start as int, start + i) == wanted@.subrange(0, i as int),
            decreases wanted@.len() - i,
        {
            if bytes[start + i] != wanted[i] {
                proof {
                    let held = bytes@.subrange(start as int, start + wanted@.len());
                    assert(held[i as int] != wanted@[i as int]);
                }
                return Err(absent_at(bytes.len(), start));
            }
            proof {
                let a = bytes@.subrange(start as int, start + i + 1);
                let b = wanted@.subrange(0, i + 1);
                assert(a.subrange(0, i as int) == bytes@.subrange(start as int, start + i));
                assert(b.subrange(0, i as int) == wanted@.subrange(0, i as int));
                assert(a == a.subrange(0, i as int).push(bytes@[start + i]));
                assert(b == b.subrange(0, i as int).push(wanted@[i as int]));
            }
            i += 1;
        }
        proof {
            assert(wanted@.subrange(0, i as int) == wanted@);
            lemma_boundary_after_text(bytes@, start as int, wanted@);
        }
        self.pos = start + wanted.len();
        Ok(())
    }

    /// Consumes the longest run of decimal digits at the offset and returns
    /// it. Fails with `EmptyDigitRun` when the byte at the offset is no digit.
    #[verifier::loop_isolation(false)]
    pub fn take_digits(&mut self) -> (outcome: Result<&'a str, ParseError>)
        ensures
            final(self).input() == old(self).input(),
            0 <= old(self).offset() <= old(self).input().len(),
            final(self).offset() == digits_end(old(self).input(), old(self).offset()),
            final(self).offset() <= old(self).input().len(),
            match outcome {
                Ok(digits) => {
                    &&& old(self).offset() < final(self).offset()
                    &&& digits.spec_bytes() == old(self).input().subrange(
                        old(self).offset(),
                        final(self).offset(),
                    )
                },
                Err(e) => {
                    &&& final(self).offset() == old(self).offset()
                    &&& e@ == (Failure { kind: ErrorKind::EmptyDigitRun, offset: old(self).offset() })
                },
            },
    {
        broadcast use encode_utf8_valid_utf8;

        proof {
            use_type_invariant(&*self);
        }
        let bytes = self.text.as_bytes();
        let start = self.pos;
        let mut end = start;
        while end < bytes.len() && 0x30 <= bytes[end] && bytes[end] <= 0x39
            invariant
                bytes@ == self.text.spec_bytes(),
                start <= end <= bytes@.len(),
                forall|i: int| start <= i < end ==> is_digit(#[trigger] bytes@[i]),
            decreases bytes@.len() - end,
        {
            end += 1;
        }
        proof {
            lemma_digits_end_is(bytes@, start as int, end as int);
            lemma_boundary_after_ascii(bytes@, start as int, end as int);
        }
        if end == start {
            return Err(ParseError::new(ErrorKind::EmptyDigitRun, start));
        }
        let digits = span(self.text, start, end);
        self.pos = end;
        Ok(digits)
    }

    /// Consumes the input up to the first occurrence of `delimiter` at or
    /// after the offset, and returns what it consumed; the delimiter itself
    /// stays. Fails with `UnexpectedEnd`, reported at the end of the input,
    /// when the delimiter does not occur.
    #[verifier::loop_isolation(false)]
    pub fn take_until(&mut self, delimiter: &str) -> (outcome: Result<&'a str, ParseError>)
        ensures
            final(self).input() == old(self).input(),
            0 <= old(self).offset() <= old(self).input().len(),
            match outcome {
                Ok(taken) => {
                    &&& find(old(self).input(), old(self).offset(), delimiter.spec_bytes())
                        == Some(final(self).offset())
                    &&& old(self).offset() <= final(self).offset() <= old(self).input().len()
                    &&& taken.spec_bytes() == old(self).input().subrange(
                        old(self).offset(),
                        final(self).offset(),
                    )
                },
                Err(e) => {
                    &&& find(old(self).input(), old(self).offset(), delimiter.spec_bytes()) is None
                    &&& final(self).offset() == old(self).offset()
                    &&& e@ == (Failure {
                        kind: ErrorKind::UnexpectedEnd,
                        offset: old(self).input().len() as int,
                    })
                },
            },
    {
        broadcast use encode_utf8_valid_utf8;

        proof {
            use_type_invariant(&*self);
        }
        let bytes = self.text.as_bytes();
        let wanted = delimiter.as_bytes();
        let start = self.pos;
        let mut at = start;
        while wanted.len() <= bytes.len() - at
            invariant
                bytes@ == self.text.spec_bytes(),
                wanted@ == delimiter.spec_bytes(),
                *self == *old(self),
                start <= at <= bytes@.len(),
                wanted@.len() == 0 ==> at == start,
                forall|i: int| start <= i < at ==> !occurs_at(bytes@, i, wanted@),
            decreases bytes@.len() - at,
        {
            let mut i: usize = 0;
            while i < wanted.len() && bytes[at + i] == wanted[i]
                invariant
                    at + wanted@.len() <= bytes@.len(),
                    i <= wanted@.len(),
                    bytes@.subrange(at as int, at + i) == wanted@.subrange(0, i as int),
                decreases wanted@.len() - i,
            {
                proof {
                    let a = bytes@.subrange(at as int, at + i + 1);
                    let b = wanted@.subrange(0, i + 1);
                    assert(a.subrange(0, i as int) == bytes@.subrange(at as int, at + i));
                    assert(b.subrange(0, i as int) == wanted@.subrange(0, i as int));
                    assert(a == a.subrange(0, i as int).push(bytes@[at + i]));
                    assert(b == b.subrange(0, i as int).push(wanted@[i as int]));
                }
                i += 1;
            }
            if i == wanted.len() {
                proof {
                    assert(wanted@.subrange(0, i as int) == wanted@);
                    lemma_find_is(bytes@, start as int, wanted@, at as int);
                    if wanted@.len() > 0 {
                        lemma_boundary_before_text(bytes@, at as int, wanted@);
                    }
                }
                let taken = span(self.text, start, at);
                self.pos = at;
                return Ok(taken);
            }
            proof {
                let held = bytes@.subrange(at as int, at + wanted@.len());
                assert(held[i as int] != wanted@[i as int]);
            }
            at += 1;
        }
        proof {
            assert forall|i: int| start <= i implies !occurs_at(bytes@, i, wanted@) by {}
            lemma_find_none(bytes@, start as int, wanted@);
        }
        Err(ParseError::new(ErrorKind::UnexpectedEnd, bytes.len()))
    }
}

/// The error that reports a token absent at `pos` in an input of `len` bytes.
fn absent_at(len: usize, pos: usize) -> (e: ParseError)
    ensures
        e.offset == pos,
        e.kind == if pos >= len {
            ErrorKind::UnexpectedEnd
        } else {
            ErrorKind::LiteralMismatch
        },
{
    if pos >= len {
        ParseError::new(ErrorKind::UnexpectedEnd, pos)
    } else {
        ParseError::new(ErrorKind::LiteralMismatch, pos)
    }
}

} // verus!
