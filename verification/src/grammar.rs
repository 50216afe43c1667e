//! The grammar, as functions from an input and an offset to what a parse
//! at that offset yields: a value and the number of bytes it takes up, or a
//! failure.
//!
//! ```text
//! value   = null | bool | number | string | array | object
//! null    = "null"
//! bool    = "true" | "false"
//! number  = "-"? digit+ ("." digit+)?
//! string  = '"' (any byte but '"')* '"'
//! array   = "[" ws value (ws "," ws value)* ws "]"
//! object  = "{" ws member (ws "," ws member)* ws "}"
//! member  = string ws ":" ws value
//! ```

use crate::error::{ErrorKind, Failure};
use crate::lexical::{
    absent, digits_end, find, has_byte, lemma_whitespace_end, occurs_at, whitespace_end,
};
use crate::value::{with_member, DecimalView, NumView, ValueView};
use vstd::prelude::*;
use vstd::string::*;
use vstd::utf8::*;

verus! {

/// The deepest nesting of arrays and objects that a document may have.
pub const MAX_DEPTH: usize = 128;

/// `"`, which opens and closes a string.
pub const QUOTE: u8 = 0x22;

/// `-`, the sign of a negative number.
pub const MINUS: u8 = 0x2d;

/// `.`, the decimal point.
pub const POINT: u8 = 0x2e;

/// `,`, which separates the elements of an array and the members of an object.
pub const COMMA: u8 = 0x2c;

/// `:`, which separates a key from its value.
pub const COLON: u8 = 0x3a;

/// `[`, which opens an array.
pub const OPEN_BRACKET: u8 = 0x5b;

/// `]`, which closes an array.
pub const CLOSE_BRACKET: u8 = 0x5d;

/// `{`, which opens an object.
pub const OPEN_BRACE: u8 = 0x7b;

/// `}`, which closes an object.
pub const CLOSE_BRACE: u8 = 0x7d;

/// The input holds the text `keyword` at `pos`.
pub open spec fn keyword(input: Seq<u8>, pos: int, keyword: &str) -> bool {
    occurs_at(input, pos, keyword.spec_bytes())
}

/// The number of bytes from `from` up to `to`.
pub open spec fn distance(from: int, to: int) -> nat {
    (to - from) as nat
}

/// What the rest of a list yields, seen from where the list began: the
/// same values, over the bytes from `from` to where the rest, which starts
/// at `at`, ends.
pub open spec fn carried_on<T>(from: int, at: int, rest: Result<(T, nat), Failure>) -> Result<
    (T, nat),
    Failure,
> {
    match rest {
        Err(failure) => Err(failure),
        Ok((all, more)) => Ok((all, distance(from, at + more))),
    }
}

/// The values of a run of ASCII digits.
pub open spec fn digit_values(digits: Seq<u8>) -> Seq<u8> {
    Seq::new(digits.len(), |i: int| (digits[i] - 0x30) as u8)
}

/// The number that a sequence of decimal digits denotes.
pub open spec fn decimal_value(digits: Seq<u8>) -> nat
    decreases digits.len(),
{
    if digits.len() == 0 {
        0
    } else {
        10 * decimal_value(digits.drop_last()) + digits.last() as nat
    }
}

/// `null`.
pub open spec fn parse_null_spec(input: Seq<u8>, pos: int) -> Result<((), nat), Failure> {
    if keyword(input, pos, "null") {
        Ok(((), "null".spec_bytes().len()))
    } else {
        Err(absent(input, pos))
    }
}

/// `true` or `false`.
pub open spec fn parse_bool_spec(input: Seq<u8>, pos: int) -> Result<(bool, nat), Failure> {
    if keyword(input, pos, "true") {
        Ok((true, "true".spec_bytes().len()))
    } else if keyword(input, pos, "false") {
        Ok((false, "false".spec_bytes().len()))
    } else {
        Err(absent(input, pos))
    }
}

/// An optional `-`, digits, and optionally a `.` with digits after it.
///
/// Without a point the literal is an integer, and its magnitude must not
/// exceed `i64::MAX`. With a point it is a decimal, whatever comes after the
/// point, and keeps its digits as written. A `-` or a `.` that no digit
/// follows is a failure at the offset where the digit was due.
pub open spec fn parse_num_spec(input: Seq<u8>, pos: int) -> Result<(NumView, nat), Failure> {
    let negative = has_byte(input, pos, MINUS);
    let start = if negative {
        pos + 1
    } else {
        pos
    };
    let point = digits_end(input, start);
    let integer = digit_values(input.subrange(start, point));
    if point == start {
        Err(Failure { kind: ErrorKind::EmptyDigitRun, offset: start })
    } else if has_byte(input, point, POINT) {
        let after = point + 1;
        let end = digits_end(input, after);
        if end == after {
            Err(Failure { kind: ErrorKind::EmptyDigitRun, offset: after })
        } else {
            let fraction = digit_values(input.subrange(after, end));
            Ok((NumView::Float(DecimalView { negative, integer, fraction }), distance(pos, end)))
        }
    } else if decimal_value(integer) > i64::MAX {
        Err(Failure { kind: ErrorKind::NumberOutOfRange, offset: pos })
    } else if negative {
        Ok((NumView::Int(-(decimal_value(integer) as int)), distance(pos, point)))
    } else {
        Ok((NumView::Int(decimal_value(integer) as int), distance(pos, point)))
    }
}

/// A `"`, then everything up to the next `"`, taken as it stands. No escape
/// sequence is interpreted, so a string cannot hold a `"`.
pub open spec fn parse_string_spec(input: Seq<u8>, pos: int) -> Result<(Seq<char>, nat), Failure> {
    if !has_byte(input, pos, QUOTE) {
        Err(absent(input, pos))
    } else {
        match find(input, pos + 1, seq![QUOTE]) {
            Some(close) => Ok(
                (decode_utf8(input.subrange(pos + 1, close)), distance(pos, close + 1)),
            ),
            None => Err(Failure { kind: ErrorKind::UnterminatedString, offset: pos }),
        }
    }
}

/// A failed alternative declines when what it asks for first is not at the
/// offset. Any other failure means that it had begun to match.
pub open spec fn declines(failure: Failure, pos: int) -> bool {
    &&& failure.offset == pos
    &&& (failure.kind == ErrorKind::UnexpectedEnd || failure.kind == ErrorKind::LiteralMismatch
        || failure.kind == ErrorKind::EmptyDigitRun)
}

/// The six alternatives of a value at `pos`, in the order in which they are
/// tried.
#[verifier::opaque]
pub open spec fn alternatives(input: Seq<u8>, pos: int, depth: nat) -> Seq<
    Result<(ValueView, nat), Failure>,
>
    decreases input.len() - pos, 2int,
{
    seq![
        match parse_null_spec(input, pos) {
            Ok((_, taken)) => Ok((ValueView::Null, taken)),
            Err(failure) => Err(failure),
        },
        match parse_bool_spec(input, pos) {
            Ok((b, taken)) => Ok((ValueView::Bool(b), taken)),
            Err(failure) => Err(failure),
        },
        match parse_num_spec(input, pos) {
            Ok((n, taken)) => Ok((ValueView::Number(n), taken)),
            Err(failure) => Err(failure),
        },
        match parse_string_spec(input, pos) {
            Ok((s, taken)) => Ok((ValueView::String(s), taken)),
            Err(failure) => Err(failure),
        },
        match parse_array_spec(input, pos, depth) {
            Ok((items, taken)) => Ok((ValueView::Array(items), taken)),
            Err(failure) => Err(failure),
        },
        match parse_object_spec(input, pos, depth) {
            Ok((members, taken)) => Ok((ValueView::Object(members), taken)),
            Err(failure) => Err(failure),
        },
    ]
}

/// The alternatives, one by one.
pub proof fn lemma_alternatives(input: Seq<u8>, pos: int, depth: nat)
    ensures
        alternatives(input, pos, depth).len() == 6,
        alternatives(input, pos, depth)[0] == (match parse_null_spec(input, pos) {
            Ok((_, taken)) => Ok::<(ValueView, nat), Failure>((ValueView::Null, taken)),
            Err(failure) => Err(failure),
        }),
        alternatives(input, pos, depth)[1] == (match parse_bool_spec(input, pos) {
            Ok((b, taken)) => Ok::<(ValueView, nat), Failure>((ValueView::Bool(b), taken)),
            Err(failure) => Err(failure),
        }),
        alternatives(input, pos, depth)[2] == (match parse_num_spec(input, pos) {
            Ok((n, taken)) => Ok::<(ValueView, nat), Failure>((ValueView::Number(n), taken)),
            Err(failure) => Err(failure),
        }),
        alternatives(input, pos, depth)[3] == (match parse_string_spec(input, pos) {
            Ok((s, taken)) => Ok::<(ValueView, nat), Failure>((ValueView::String(s), taken)),
            Err(failure) => Err(failure),
        }),
        alternatives(input, pos, depth)[4] == (match parse_array_spec(input, pos, depth) {
            Ok((items, taken)) => Ok::<(ValueView, nat), Failure>(
                (ValueView::Array(items), taken),
            ),
            Err(failure) => Err(failure),
        }),
        alternatives(input, pos, depth)[5] == (match parse_object_spec(input, pos, depth) {
            Ok((members, taken)) => Ok::<(ValueView, nat), Failure>(
                (ValueView::Object(members), taken),
            ),
            Err(failure) => Err(failure),
        }),
        parse_value_spec(input, pos, depth) == first_of(alternatives(input, pos, depth), pos),
{
    reveal(alternatives);
}

/// Ordered choice. The first alternative that succeeds gives the result.
/// When none does, the first that failed without declining gives the
/// failure; when all decline, nothing that could be a value is at `pos`.
#[verifier::opaque]
pub open spec fn first_of(
    outcomes: Seq<Result<(ValueView, nat), Failure>>,
    pos: int,
) -> Result<(ValueView, nat), Failure> {
    if exists|i: int| 0 <= i < outcomes.len() && outcomes[i] is Ok {
        outcomes[choose|i: int|
            0 <= i < outcomes.len() && outcomes[i] is Ok && forall|j: int|
                0 <= j < i ==> outcomes[j] is Err]
    } else if exists|i: int| 0 <= i < outcomes.len() && !declines(outcomes[i]->Err_0, pos) {
        outcomes[choose|i: int|
            0 <= i < outcomes.len() && !declines(outcomes[i]->Err_0, pos) && forall|j: int|
                0 <= j < i ==> declines(outcomes[j]->Err_0, pos)]
    } else {
        Err(Failure { kind: ErrorKind::NoAlternativeMatched, offset: pos })
    }
}

/// Where an alternative succeeds and all before it fail, it gives the result.
pub proof fn lemma_first_of_success(
    outcomes: Seq<Result<(ValueView, nat), Failure>>,
    pos: int,
    k: int,
)
    requires
        0 <= k < outcomes.len(),
        outcomes[k] is Ok,
        forall|j: int| 0 <= j < k ==> outcomes[j] is Err,
    ensures
        first_of(outcomes, pos) == outcomes[k],
{
    reveal(first_of);
    let i = choose|i: int|
        0 <= i < outcomes.len() && outcomes[i] is Ok && forall|j: int|
            0 <= j < i ==> outcomes[j] is Err;
    assert(i == k);
}

/// Where all alternatives fail, one of them without declining, and all
/// before that one decline, it gives the failure.
pub proof fn lemma_first_of_refusal(
    outcomes: Seq<Result<(ValueView, nat), Failure>>,
    pos: int,
    k: int,
)
    requires
        0 <= k < outcomes.len(),
        forall|j: int| 0 <= j < outcomes.len() ==> outcomes[j] is Err,
        !declines(outcomes[k]->Err_0, pos),
        forall|j: int| 0 <= j < k ==> declines(outcomes[j]->Err_0, pos),
    ensures
        first_of(outcomes, pos) == outcomes[k],
{
    reveal(first_of);
    let i = choose|i: int|
        0 <= i < outcomes.len() && !declines(outcomes[i]->Err_0, pos) && forall|j: int|
            0 <= j < i ==> declines(outcomes[j]->Err_0, pos);
    assert(i == k);
}

/// Where all alternatives decline, no value is at the offset.
pub proof fn lemma_first_of_nothing(outcomes: Seq<Result<(ValueView, nat), Failure>>, pos: int)
    requires
        forall|j: int| 0 <= j < outcomes.len() ==> outcomes[j] is Err,
        forall|j: int| 0 <= j < outcomes.len() ==> declines(outcomes[j]->Err_0, pos),
    ensures
        first_of(outcomes, pos) == Err::<(ValueView, nat), Failure>(
            Failure { kind: ErrorKind::NoAlternativeMatched, offset: pos },
        ),
{
    reveal(first_of);
}

/// Among the indices below `n` at which something holds, one is the least.
pub proof fn lemma_least_index(holds: spec_fn(int) -> bool, n: int)
    requires
        exists|i: int| 0 <= i < n && #[trigger] holds(i),
    ensures
        exists|i: int|
            0 <= i < n && #[trigger] holds(i) && forall|j: int| 0 <= j < i ==> !#[trigger] holds(j),
    decreases n,
{
    if exists|i: int| 0 <= i < n - 1 && #[trigger] holds(i) {
        lemma_least_index(holds, n - 1);
        let least = choose|i: int|
            0 <= i < n - 1 && #[trigger] holds(i) && forall|j: int|
                0 <= j < i ==> !#[trigger] holds(j);
        assert(0 <= least < n && holds(least));
    } else {
        assert(holds(n - 1));
    }
}

/// A success of the choice is the success of one of the alternatives.
pub proof fn lemma_first_of_is_one(outcomes: Seq<Result<(ValueView, nat), Failure>>, pos: int)
    requires
        first_of(outcomes, pos) is Ok,
    ensures
        exists|k: int| 0 <= k < outcomes.len() && outcomes[k] == first_of(outcomes, pos),
{
    reveal(first_of);
    if exists|i: int| 0 <= i < outcomes.len() && outcomes[i] is Ok {
        let succeeds = |i: int| outcomes[i] is Ok;
        let some = choose|i: int| 0 <= i < outcomes.len() && outcomes[i] is Ok;
        assert(succeeds(some));
        lemma_least_index(succeeds, outcomes.len() as int);
        let least = choose|i: int|
            0 <= i < outcomes.len() && #[trigger] succeeds(i) && forall|j: int|
                0 <= j < i ==> !#[trigger] succeeds(j);
        assert(forall|j: int| 0 <= j < least ==> !succeeds(j) ==> outcomes[j] is Err);
        lemma_first_of_success(outcomes, pos, least);
    } else if exists|i: int| 0 <= i < outcomes.len() && !declines(outcomes[i]->Err_0, pos) {
        let refuses = |i: int| !declines(outcomes[i]->Err_0, pos);
        let some = choose|i: int| 0 <= i < outcomes.len() && !declines(outcomes[i]->Err_0, pos);
        assert(refuses(some));
        lemma_least_index(refuses, outcomes.len() as int);
        let least = choose|i: int|
            0 <= i < outcomes.len() && #[trigger] refuses(i) && forall|j: int|
                0 <= j < i ==> !#[trigger] refuses(j);
        assert(forall|j: int|
            0 <= j < least ==> !refuses(j) ==> declines(outcomes[j]->Err_0, pos));
        lemma_first_of_refusal(outcomes, pos, least);
    }
}

/// A value at `pos`, nested no deeper than `depth` allows.
pub open spec fn parse_value_spec(input: Seq<u8>, pos: int, depth: nat) -> Result<
    (ValueView, nat),
    Failure,
>
    decreases input.len() - pos, 3int,
{
    first_of(alternatives(input, pos, depth), pos)
}

/// `[`, one or more values separated by `,`, and `]`, with optional
/// whitespace around the values. An array at depth 0 exceeds the limit.
pub open spec fn parse_array_spec(input: Seq<u8>, pos: int, depth: nat) -> Result<
    (Seq<ValueView>, nat),
    Failure,
>
    decreases input.len() - pos, 1int,
{
    if !has_byte(input, pos, OPEN_BRACKET) {
        Err(absent(input, pos))
    } else if depth == 0 {
        Err(Failure { kind: ErrorKind::DepthLimitExceeded, offset: pos })
    } else {
        let first = whitespace_end(input, pos + 1);
        proof {
            lemma_whitespace_end(input, pos + 1);
        }
        match parse_elements_spec(input, first, (depth - 1) as nat, Seq::empty()) {
            Err(failure) => Err(failure),
            Ok((items, taken)) => {
                let close = whitespace_end(input, first + taken);
                if has_byte(input, close, CLOSE_BRACKET) {
                    Ok((items, distance(pos, close + 1)))
                } else {
                    Err(absent(input, close))
                }
            },
        }
    }
}

/// The values of an array from `pos` on, appended to those already parsed.
pub open spec fn parse_elements_spec(
    input: Seq<u8>,
    pos: int,
    depth: nat,
    parsed: Seq<ValueView>,
) -> Result<(Seq<ValueView>, nat), Failure>
    decreases input.len() - pos, 4int,
{
    match parse_value_spec(input, pos, depth) {
        Err(failure) => Err(failure),
        Ok((value, taken)) => {
            let comma = whitespace_end(input, pos + taken);
            if has_byte(input, comma, COMMA) {
                let next = whitespace_end(input, comma + 1);
                proof {
                    lemma_whitespace_end(input, pos + taken);
                    lemma_whitespace_end(input, comma + 1);
                }
                carried_on(pos, next, parse_elements_spec(input, next, depth, parsed.push(value)))
            } else {
                Ok((parsed.push(value), taken))
            }
        },
    }
}

/// A string, `:`, and a value, with optional whitespace around the `:`.
pub open spec fn parse_member_spec(input: Seq<u8>, pos: int, depth: nat) -> Result<
    ((Seq<char>, ValueView), nat),
    Failure,
>
    decreases input.len() - pos, 4int,
{
    match parse_string_spec(input, pos) {
        Err(failure) => Err(failure),
        Ok((key, taken)) => {
            let colon = whitespace_end(input, pos + taken);
            if !has_byte(input, colon, COLON) {
                Err(absent(input, colon))
            } else {
                let start = whitespace_end(input, colon + 1);
                proof {
                    lemma_whitespace_end(input, pos + taken);
                    lemma_whitespace_end(input, colon + 1);
                }
                match parse_value_spec(input, start, depth) {
                    Err(failure) => Err(failure),
                    Ok((value, more)) => Ok(((key, value), distance(pos, start + more))),
                }
            }
        },
    }
}

/// `{`, one or more members separated by `,`, and `}`, with optional
/// whitespace around the members. Of two members with the same key the later
/// one gives the value. An object at depth 0 exceeds the limit.
pub open spec fn parse_object_spec(input: Seq<u8>, pos: int, depth: nat) -> Result<
    (Seq<(Seq<char>, ValueView)>, nat),
    Failure,
>
    decreases input.len() - pos, 1int,
{
    if !has_byte(input, pos, OPEN_BRACE) {
        Err(absent(input, pos))
    } else if depth == 0 {
        Err(Failure { kind: ErrorKind::DepthLimitExceeded, offset: pos })
    } else {
        let first = whitespace_end(input, pos + 1);
        proof {
            lemma_whitespace_end(input, pos + 1);
        }
        match parse_members_spec(input, first, (depth - 1) as nat, Seq::empty()) {
            Err(failure) => Err(failure),
            Ok((members, taken)) => {
                let close = whitespace_end(input, first + taken);
                if has_byte(input, close, CLOSE_BRACE) {
                    Ok((members, distance(pos, close + 1)))
                } else {
                    Err(absent(input, close))
                }
            },
        }
    }
}

/// The members of an object from `pos` on, added to those already parsed.
pub open spec fn parse_members_spec(
    input: Seq<u8>,
    pos: int,
    depth: nat,
    parsed: Seq<(Seq<char>, ValueView)>,
) -> Result<(Seq<(Seq<char>, ValueView)>, nat), Failure>
    decreases input.len() - pos, 5int,
{
    match parse_member_spec(input, pos, depth) {
        Err(failure) => Err(failure),
        Ok((member, taken)) => {
            let members = with_member(parsed, member.0, member.1);
            let comma = whitespace_end(input, pos + taken);
            if has_byte(input, comma, COMMA) {
                let next = whitespace_end(input, comma + 1);
                proof {
                    lemma_whitespace_end(input, pos + taken);
                    lemma_whitespace_end(input, comma + 1);
                }
                carried_on(pos, next, parse_members_spec(input, next, depth, members))
            } else {
                Ok((members, taken))
            }
        },
    }
}

/// A whole document: one value from the start of the input, and after it
/// nothing but whitespace.
pub open spec fn parse_document_spec(input: Seq<u8>) -> Result<ValueView, Failure> {
    match parse_value_spec(input, 0, MAX_DEPTH as nat) {
        Err(failure) => Err(failure),
        Ok((value, taken)) => {
            let end = whitespace_end(input, taken as int);
            if end == input.len() {
                Ok(value)
            } else {
                Err(Failure { kind: ErrorKind::TrailingContent, offset: end })
            }
        },
    }
}

} // verus!
