//! The lexical layer of the grammar, stated over the bytes of the input:
//! character classes, maximal runs, and the search for a delimiter.

use crate::error::{ErrorKind, Failure};
use vstd::prelude::*;

verus! {

/// Space, tab, line feed and carriage return.
pub open spec fn is_whitespace(b: u8) -> bool {
    b == 0x20 || b == 0x09 || b == 0x0a || b == 0x0d
}

/// The decimal digits `0` to `9`.
pub open spec fn is_digit(b: u8) -> bool {
    0x30 <= b <= 0x39
}

/// The end of the longest run of whitespace that starts at `pos`.
pub open spec fn whitespace_end(input: Seq<u8>, pos: int) -> int
    decreases input.len() - pos,
{
    if 0 <= pos < input.len() && is_whitespace(input[pos]) {
        whitespace_end(input, pos + 1)
    } else {
        pos
    }
}

/// The end of the longest run of decimal digits that starts at `pos`.
pub open spec fn digits_end(input: Seq<u8>, pos: int) -> int
    decreases input.len() - pos,
{
    if 0 <= pos < input.len() && is_digit(input[pos]) {
        digits_end(input, pos + 1)
    } else {
        pos
    }
}

/// The input holds `pattern` at `pos`.
pub open spec fn occurs_at(input: Seq<u8>, pos: int, pattern: Seq<u8>) -> bool {
    &&& 0 <= pos
    &&& pos + pattern.len() <= input.len()
    &&& input.subrange(pos, pos + pattern.len()) == pattern
}

/// The input holds the single byte `b` at `pos`.
pub open spec fn has_byte(input: Seq<u8>, pos: int, b: u8) -> bool {
    0 <= pos < input.len() && input[pos] == b
}

/// How the absence of an expected token is reported: at the offset where it
/// was expected, as `UnexpectedEnd` when the input ends there and as
/// `LiteralMismatch` when it goes on with something else.
pub open spec fn absent(input: Seq<u8>, pos: int) -> Failure {
    Failure {
        kind: if pos >= input.len() {
            ErrorKind::UnexpectedEnd
        } else {
            ErrorKind::LiteralMismatch
        },
        offset: pos,
    }
}

/// The first offset at or after `pos` at which `pattern` occurs, if any.
pub open spec fn find(input: Seq<u8>, pos: int, pattern: Seq<u8>) -> Option<int>
    decreases input.len() - pos,
{
    if occurs_at(input, pos, pattern) {
        Some(pos)
    } else if pos < 0 || pos + pattern.len() >= input.len() {
        None
    } else {
        find(input, pos + 1, pattern)
    }
}

/// What `whitespace_end` returns, stated without recursion: everything from
/// `pos` up to it is whitespace, and the byte at it, if there is one, is not.
pub proof fn lemma_whitespace_end(input: Seq<u8>, pos: int)
    requires
        0 <= pos <= input.len(),
    ensures
        pos <= whitespace_end(input, pos) <= input.len(),
        forall|i: int| pos <= i < whitespace_end(input, pos) ==> is_whitespace(#[trigger] input[i]),
        whitespace_end(input, pos) < input.len() ==> !is_whitespace(
            input[whitespace_end(input, pos)],
        ),
    decreases input.len() - pos,
{
    if pos < input.len() && is_whitespace(input[pos]) {
        lemma_whitespace_end(input, pos + 1);
    }
}

/// A run of whitespace that ends before a byte that is none, or at the end
/// of the input, is the longest one.
pub proof fn lemma_whitespace_end_is(input: Seq<u8>, pos: int, end: int)
    requires
        0 <= pos <= end <= input.len(),
        forall|i: int| pos <= i < end ==> is_whitespace(#[trigger] input[i]),
        end < input.len() ==> !is_whitespace(input[end]),
    ensures
        whitespace_end(input, pos) == end,
    decreases end - pos,
{
    if pos < end {
        lemma_whitespace_end_is(input, pos + 1, end);
    }
}

/// What `digits_end` returns, stated without recursion.
pub proof fn lemma_digits_end(input: Seq<u8>, pos: int)
    requires
        0 <= pos <= input.len(),
    ensures
        pos <= digits_end(input, pos) <= input.len(),
        forall|i: int| pos <= i < digits_end(input, pos) ==> is_digit(#[trigger] input[i]),
        digits_end(input, pos) < input.len() ==> !is_digit(input[digits_end(input, pos)]),
    decreases input.len() - pos,
{
    if pos < input.len() && is_digit(input[pos]) {
        lemma_digits_end(input, pos + 1);
    }
}

/// A run of digits that ends before a byte that is none, or at the end of
/// the input, is the longest one.
pub proof fn lemma_digits_end_is(input: Seq<u8>, pos: int, end: int)
    requires
        0 <= pos <= end <= input.len(),
        forall|i: int| pos <= i < end ==> is_digit(#[trigger] input[i]),
        end < input.len() ==> !is_digit(input[end]),
    ensures
        digits_end(input, pos) == end,
    decreases end - pos,
{
    if pos < end {
        lemma_digits_end_is(input, pos + 1, end);
    }
}

/// What `find` returns, stated without recursion: the pattern occurs at the
/// offset found and nowhere between `pos` and it; when nothing is found, it
/// occurs nowhere from `pos` on.
pub proof fn lemma_find(input: Seq<u8>, pos: int, pattern: Seq<u8>)
    requires
        0 <= pos,
    ensures
        match find(input, pos, pattern) {
            Some(at) => {
                &&& pos <= at
                &&& occurs_at(input, at, pattern)
                &&& forall|i: int| pos <= i < at ==> !occurs_at(input, i, pattern)
            },
            None => forall|i: int| pos <= i ==> !occurs_at(input, i, pattern),
        },
    decreases input.len() - pos,
{
    if !occurs_at(input, pos, pattern) && pos + pattern.len() < input.len() {
        lemma_find(input, pos + 1, pattern);
    }
}

/// The first occurrence at or after `pos` is what `find` returns.
pub proof fn lemma_find_is(input: Seq<u8>, pos: int, pattern: Seq<u8>, at: int)
    requires
        0 <= pos <= at,
        occurs_at(input, at, pattern),
        forall|i: int| pos <= i < at ==> !occurs_at(input, i, pattern),
    ensures
        find(input, pos, pattern) == Some(at),
    decreases at - pos,
{
    if pos < at {
        lemma_find_is(input, pos + 1, pattern, at);
    }
}

/// A pattern that occurs nowhere from `pos` on is not found.
pub proof fn lemma_find_none(input: Seq<u8>, pos: int, pattern: Seq<u8>)
    requires
        forall|i: int| pos <= i ==> !occurs_at(input, i, pattern),
    ensures
        find(input, pos, pattern) is None,
    decreases input.len() - pos,
{
    if 0 <= pos && pos + pattern.len() < input.len() {
        lemma_find_none(input, pos + 1, pattern);
    }
}

/// A text that occurs at an offset is made of two parts exactly when the
/// first part occurs there and the second right after it.
pub proof fn lemma_occurs_parts(input: Seq<u8>, pos: int, first: Seq<u8>, second: Seq<u8>)
    ensures
        occurs_at(input, pos, first + second) <==> occurs_at(input, pos, first) && occurs_at(
            input,
            pos + first.len(),
            second,
        ),
{
    let whole = first + second;
    if occurs_at(input, pos, whole) {
        let held = input.subrange(pos, pos + whole.len());
        assert(input.subrange(pos, pos + first.len()) =~= held.subrange(0, first.len() as int));
        assert(whole.subrange(0, first.len() as int) =~= first);
        assert(input.subrange(pos + first.len(), pos + first.len() + second.len())
            =~= held.subrange(first.len() as int, whole.len() as int));
        assert(whole.subrange(first.len() as int, whole.len() as int) =~= second);
    }
    if occurs_at(input, pos, first) && occurs_at(input, pos + first.len(), second) {
        assert(input.subrange(pos, pos + whole.len()) =~= input.subrange(pos, pos + first.len())
            + input.subrange(pos + first.len(), pos + first.len() + second.len()));
    }
}

/// A text of one byte occurs where that byte stands.
pub proof fn lemma_occurs_byte(input: Seq<u8>, pos: int, b: u8)
    ensures
        occurs_at(input, pos, seq![b]) <==> has_byte(input, pos, b),
{
    if occurs_at(input, pos, seq![b]) {
        assert(input.subrange(pos, pos + 1)[0] == seq![b][0]);
    }
    if has_byte(input, pos, b) {
        assert(input.subrange(pos, pos + 1) =~= seq![b]);
    }
}

/// Where a text occurs, the input holds its bytes one by one.
pub proof fn lemma_occurs_bytes(input: Seq<u8>, pos: int, text: Seq<u8>)
    requires
        occurs_at(input, pos, text),
    ensures
        forall|j: int| 0 <= j < text.len() ==> input[pos + j] == #[trigger] text[j],
{
    assert forall|j: int| 0 <= j < text.len() implies input[pos + j] == #[trigger] text[j] by {
        assert(input.subrange(pos, pos + text.len())[j] == input[pos + j]);
    }
}

} // verus!
