//! The alternatives of a value exclude one another: each begins with a byte
//! that none of the others begins with.

use crate::grammar::{
    alternatives, declines, first_of, lemma_first_of_refusal, lemma_first_of_success,
    parse_value_spec, MINUS, OPEN_BRACE, OPEN_BRACKET, QUOTE,
};
use crate::lexical::{is_digit, occurs_at};
use crate::text::lemma_keywords;
use vstd::prelude::*;
use vstd::string::*;

verus! {

/// The bytes with which the alternative of index `k` can begin: `n` for
/// null, `t` and `f` for a boolean, `-` and the digits for a number, and the
/// opening quote, bracket and brace for a string, an array and an object.
pub open spec fn leads(b: u8, k: int) -> bool {
    if k == 0 {
        b == 0x6e
    } else if k == 1 {
        b == 0x74 || b == 0x66
    } else if k == 2 {
        b == MINUS || is_digit(b)
    } else if k == 3 {
        b == QUOTE
    } else if k == 4 {
        b == OPEN_BRACKET
    } else {
        k == 5 && b == OPEN_BRACE
    }
}

/// An alternative that succeeds, or that fails without declining, found a
/// byte at the offset that it begins with.
pub proof fn lemma_alternative_begins(input: Seq<u8>, pos: int, depth: nat, k: int)
    requires
        0 <= k < 6,
        alternatives(input, pos, depth)[k] is Ok || !declines(
            alternatives(input, pos, depth)[k]->Err_0,
            pos,
        ),
    ensures
        0 <= pos < input.len(),
        leads(input[pos], k),
{
    reveal(alternatives);
    lemma_keywords();
    if k == 0 {
        let word = "null".spec_bytes();
        assert(input.subrange(pos, pos + word.len())[0] == word[0]);
    } else if k == 1 {
        let yes = "true".spec_bytes();
        let no = "false".spec_bytes();
        if occurs_at(input, pos, yes) {
            assert(input.subrange(pos, pos + yes.len())[0] == yes[0]);
        } else {
            assert(input.subrange(pos, pos + no.len())[0] == no[0]);
        }
    }
}

/// Where one alternative succeeds, or fails without declining, each of the
/// others declines.
pub proof fn lemma_alternatives_exclusive(
    input: Seq<u8>,
    pos: int,
    depth: nat,
    k: int,
    other: int,
)
    requires
        0 <= k < 6,
        0 <= other < 6,
        k != other,
        alternatives(input, pos, depth)[k] is Ok || !declines(
            alternatives(input, pos, depth)[k]->Err_0,
            pos,
        ),
    ensures
        alternatives(input, pos, depth)[other] is Err,
        declines(alternatives(input, pos, depth)[other]->Err_0, pos),
{
    lemma_alternative_begins(input, pos, depth, k);
    if alternatives(input, pos, depth)[other] is Ok || !declines(
        alternatives(input, pos, depth)[other]->Err_0,
        pos,
    ) {
        lemma_alternative_begins(input, pos, depth, other);
    }
}

/// So the order in which the alternatives are tried decides nothing: a
/// value at an offset is what the one alternative yields that does not
/// decline there.
pub proof fn lemma_value_is_the_alternative(input: Seq<u8>, pos: int, depth: nat, k: int)
    requires
        0 <= k < 6,
        alternatives(input, pos, depth)[k] is Ok || !declines(
            alternatives(input, pos, depth)[k]->Err_0,
            pos,
        ),
    ensures
        parse_value_spec(input, pos, depth) == alternatives(input, pos, depth)[k],
{
    let outcomes = alternatives(input, pos, depth);
    assert(outcomes.len() == 6) by {
        reveal(alternatives);
    }
    assert forall|j: int| 0 <= j < 6 && j != k implies outcomes[j] is Err && declines(
        outcomes[j]->Err_0,
        pos,
    ) by {
        lemma_alternatives_exclusive(input, pos, depth, k, j);
    }
    if outcomes[k] is Ok {
        lemma_first_of_success(outcomes, pos, k);
    } else {
        lemma_first_of_refusal(outcomes, pos, k);
    }
    assert(parse_value_spec(input, pos, depth) == first_of(outcomes, pos)) by {
        reveal(alternatives);
    }
}

} // verus!
