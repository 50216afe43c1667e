//! The parsers of arrays, objects and values, and of whole documents.

use crate::cursor::Cursor;
use crate::error::{ErrorKind, Failure, ParseError};
use crate::exclusive::lemma_value_is_the_alternative;
use crate::grammar::{
    alternatives, carried_on, declines, distance, lemma_alternatives, lemma_first_of_nothing,
    parse_array_spec, parse_document_spec, parse_elements_spec, parse_member_spec,
    parse_members_spec, parse_object_spec, parse_value_spec, CLOSE_BRACE, CLOSE_BRACKET, COLON,
    COMMA, MAX_DEPTH, OPEN_BRACE, OPEN_BRACKET,
};
use crate::lexical::{has_byte, whitespace_end};
use crate::scalar::{parse_bool, parse_null, parse_num, parse_string};
use crate::value::{
    element_views, member_views, position_of, well_formed, with_member, JsonValue, Member,
    ValueView,
};
use crate::wellformed::{lemma_parsed_array, lemma_parsed_object, lemma_parsed_value};
use vstd::prelude::*;
use vstd::string::StringSliceAdditionalSpecFns;

verus! {

/// Whether a failed alternative declined: see `declines`.
fn declined(e: &ParseError, pos: usize) -> (yes: bool)
    ensures
        yes == declines(e@, pos as int),
{
    e.offset == pos && (e.kind == ErrorKind::UnexpectedEnd || e.kind == ErrorKind::LiteralMismatch
        || e.kind == ErrorKind::EmptyDigitRun)
}

/// Maps `key` to `value` in `members`: in place where the key is there
/// already, at the end otherwise.
fn insert_member(members: &mut Vec<Member>, key: String, value: JsonValue)
    ensures
        member_views(final(members)@) == with_member(member_views(old(members)@), key@, value@),
{
    let ghost views = member_views(members@);
    match position_of(members, key.as_str()) {
        Some(i) => {
            members[i] = Member { key, value };
            assert(member_views(members@) == views.update(i as int, (key@, value@)));
        },
        None => {
            members.push(Member { key, value });
            assert(member_views(members@) == views.push((key@, value@)));
        },
    }
}

/// Parses a value: the first of null, a boolean, a number, a string, an
/// array and an object that is at the offset. Arrays and objects may be
/// nested in it `depth` deep. What it returns is well formed.
pub fn parse_value(cursor: &mut Cursor, depth: usize) -> (outcome: Result<JsonValue, ParseError>)
    ensures
        final(cursor).input() == old(cursor).input(),
        match outcome {
            Ok(v) => {
                &&& parse_value_spec(old(cursor).input(), old(cursor).offset(), depth as nat)
                    matches Ok((value, taken))
                &&& v@ == value
                &&& final(cursor).offset() == old(cursor).offset() + taken
                &&& well_formed(v@, depth as nat)
            },
            Err(e) => {
                &&& parse_value_spec(old(cursor).input(), old(cursor).offset(), depth as nat)
                    == Err::<(ValueView, nat), Failure>(e@)
                &&& final(cursor).offset() == old(cursor).offset()
            },
        },
    decreases old(cursor).input().len() - old(cursor).offset(), 3int,
{
    let pos = cursor.position();
    let ghost input = cursor.input();
    let ghost options = alternatives(input, pos as int, depth as nat);
    proof {
        lemma_alternatives(input, pos as int, depth as nat);
        lemma_parsed_value(input, pos as int, depth as nat);
    }
    match parse_null(cursor) {
        Ok(()) => {
            proof {
                lemma_value_is_the_alternative(input, pos as int, depth as nat, 0);
            }
            return Ok(JsonValue::Null);
        },
        Err(_) => {},
    }
    match parse_bool(cursor) {
        Ok(b) => {
            proof {
                lemma_value_is_the_alternative(input, pos as int, depth as nat, 1);
            }
            return Ok(JsonValue::Bool(b));
        },
        Err(_) => {},
    }
    match parse_num(cursor) {
        Ok(n) => {
            proof {
                lemma_value_is_the_alternative(input, pos as int, depth as nat, 2);
            }
            return Ok(JsonValue::Number(n));
        },
        Err(e) => {
            if !declined(&e, pos) {
                proof {
                    lemma_value_is_the_alternative(input, pos as int, depth as nat, 2);
                }
                return Err(e);
            }
        },
    }
    match parse_string(cursor) {
        Ok(s) => {
            proof {
                lemma_value_is_the_alternative(input, pos as int, depth as nat, 3);
            }
            return Ok(JsonValue::String(s));
        },
        Err(e) => {
            if !declined(&e, pos) {
                proof {
                    lemma_value_is_the_alternative(input, pos as int, depth as nat, 3);
                }
                return Err(e);
            }
        },
    }
    match parse_array(cursor, depth) {
        Ok(items) => {
            proof {
                lemma_value_is_the_alternative(input, pos as int, depth as nat, 4);
            }
            return Ok(JsonValue::Array(items));
        },
        Err(e) => {
            if !declined(&e, pos) {
                proof {
                    lemma_value_is_the_alternative(input, pos as int, depth as nat, 4);
                }
                return Err(e);
            }
        },
    }
    match parse_object(cursor, depth) {
        Ok(members) => {
            proof {
                lemma_value_is_the_alternative(input, pos as int, depth as nat, 5);
            }
            return Ok(JsonValue::Object(members));
        },
        Err(e) => {
            if !declined(&e, pos) {
                proof {
                    lemma_value_is_the_alternative(input, pos as int, depth as nat, 5);
                }
                return Err(e);
            }
        },
    }
    proof {
        lemma_first_of_nothing(options, pos as int);
    }
    Err(ParseError::new(ErrorKind::NoAlternativeMatched, pos))
}

/// Parses an array and returns its elements. Arrays and objects may be
/// nested in the elements `depth - 1` deep; at depth 0 the array itself is
/// one too many.
pub fn parse_array(cursor: &mut Cursor, depth: usize) -> (outcome: Result<
    Vec<JsonValue>,
    ParseError,
>)
    ensures
        final(cursor).input() == old(cursor).input(),
        match outcome {
            Ok(items) => {
                &&& parse_array_spec(old(cursor).input(), old(cursor).offset(), depth as nat)
                    matches Ok((values, taken))
                &&& element_views(items@) == values
                &&& final(cursor).offset() == old(cursor).offset() + taken
                &&& well_formed(ValueView::Array(element_views(items@)), depth as nat)
            },
            Err(e) => {
                &&& parse_array_spec(old(cursor).input(), old(cursor).offset(), depth as nat)
                    == Err::<(Seq<ValueView>, nat), Failure>(e@)
                &&& final(cursor).offset() == old(cursor).offset()
            },
        },
    decreases old(cursor).input().len() - old(cursor).offset(), 1int,
{
    let start = *cursor;
    let pos = cursor.position();
    let ghost input = cursor.input();
    proof {
        lemma_parsed_array(input, pos as int, depth as nat);
    }
    cursor.expect(OPEN_BRACKET)?;
    if depth == 0 {
        *cursor = start;
        return Err(ParseError::new(ErrorKind::DepthLimitExceeded, pos));
    }
    cursor.skip_whitespace();
    let ghost first = cursor.offset();
    let ghost inner = (depth - 1) as nat;
    let ghost mut end = first;
    let mut items: Vec<JsonValue> = Vec::new();
    assert(element_views(items@) == Seq::<ValueView>::empty());
    loop
        invariant_except_break
            parse_elements_spec(input, first, inner, Seq::empty()) == carried_on(
                first,
                cursor.offset(),
                parse_elements_spec(input, cursor.offset(), inner, element_views(items@)),
            ),
        invariant
            cursor.input() == input,
            input == old(cursor).input(),
            start == *old(cursor),
            pos == old(cursor).offset(),
            has_byte(input, pos as int, OPEN_BRACKET),
            first == whitespace_end(input, pos + 1),
            pos < first <= cursor.offset() <= input.len(),
            depth > 0,
            inner == depth - 1,
        ensures
            parse_elements_spec(input, first, inner, Seq::empty()) == Ok::<
                (Seq<ValueView>, nat),
                Failure,
            >((element_views(items@), distance(first, end))),
            first <= end,
            cursor.offset() == whitespace_end(input, end),
            !has_byte(input, cursor.offset(), COMMA),
        decreases input.len() - cursor.offset(),
    {
        let ghost before = element_views(items@);
        let value = match parse_value(cursor, depth - 1) {
            Ok(value) => value,
            Err(e) => {
                *cursor = start;
                return Err(e);
            },
        };
        items.push(value);
        proof {
            end = cursor.offset();
            assert(element_views(items@) == before.push(value@));
        }
        cursor.skip_whitespace();
        if cursor.expect(COMMA).is_err() {
            break ;
        }
        cursor.skip_whitespace();
    }
    match cursor.expect(CLOSE_BRACKET) {
        Ok(()) => Ok(items),
        Err(e) => {
            *cursor = start;
            Err(e)
        },
    }
}

/// Parses one member of an object: a key, a colon and a value.
pub fn parse_member(cursor: &mut Cursor, depth: usize) -> (outcome: Result<Member, ParseError>)
    ensures
        final(cursor).input() == old(cursor).input(),
        match outcome {
            Ok(member) => {
                &&& parse_member_spec(old(cursor).input(), old(cursor).offset(), depth as nat)
                    matches Ok((pair, taken))
                &&& (member.key@, member.value@) == pair
                &&& final(cursor).offset() == old(cursor).offset() + taken
                &&& !member.key@.contains('"')
                &&& well_formed(member.value@, depth as nat)
            },
            Err(e) => {
                &&& parse_member_spec(old(cursor).input(), old(cursor).offset(), depth as nat)
                    == Err::<((Seq<char>, ValueView), nat), Failure>(e@)
                &&& final(cursor).offset() == old(cursor).offset()
            },
        },
    decreases old(cursor).input().len() - old(cursor).offset(), 4int,
{
    let start = *cursor;
    let key = parse_string(cursor)?;
    cursor.skip_whitespace();
    match cursor.expect(COLON) {
        Ok(()) => {},
        Err(e) => {
            *cursor = start;
            return Err(e);
        },
    }
    cursor.skip_whitespace();
    match parse_value(cursor, depth) {
        Ok(value) => Ok(Member { key, value }),
        Err(e) => {
            *cursor = start;
            Err(e)
        },
    }
}

/// Parses an object and returns its members, each key once, in the order
/// in which the keys first appear, each with the value given to it last.
/// Arrays and objects may be nested in the values `depth - 1` deep; at
/// depth 0 the object itself is one too many.
pub fn parse_object(cursor: &mut Cursor, depth: usize) -> (outcome: Result<
    Vec<Member>,
    ParseError,
>)
    ensures
        final(cursor).input() == old(cursor).input(),
        match outcome {
            Ok(members) => {
                &&& parse_object_spec(old(cursor).input(), old(cursor).offset(), depth as nat)
                    matches Ok((pairs, taken))
                &&& member_views(members@) == pairs
                &&& final(cursor).offset() == old(cursor).offset() + taken
                &&& well_formed(ValueView::Object(member_views(members@)), depth as nat)
            },
            Err(e) => {
                &&& parse_object_spec(old(cursor).input(), old(cursor).offset(), depth as nat)
                    == Err::<(Seq<(Seq<char>, ValueView)>, nat), Failure>(e@)
                &&& final(cursor).offset() == old(cursor).offset()
            },
        },
    decreases old(cursor).input().len() - old(cursor).offset(), 1int,
{
    let start = *cursor;
    let pos = cursor.position();
    let ghost input = cursor.input();
    proof {
        lemma_parsed_object(input, pos as int, depth as nat);
    }
    cursor.expect(OPEN_BRACE)?;
    if depth == 0 {
        *cursor = start;
        return Err(ParseError::new(ErrorKind::DepthLimitExceeded, pos));
    }
    cursor.skip_whitespace();
    let ghost first = cursor.offset();
    let ghost inner = (depth - 1) as nat;
    let ghost mut end = first;
    let mut members: Vec<Member> = Vec::new();
    assert(member_views(members@) == Seq::<(Seq<char>, ValueView)>::empty());
    loop
        invariant_except_break
            parse_members_spec(input, first, inner, Seq::empty()) == carried_on(
                first,
                cursor.offset(),
                parse_members_spec(input, cursor.offset(), inner, member_views(members@)),
            ),
        invariant
            cursor.input() == input,
            input == old(cursor).input(),
            start == *old(cursor),
            pos == old(cursor).offset(),
            has_byte(input, pos as int, OPEN_BRACE),
            first == whitespace_end(input, pos + 1),
            pos < first <= cursor.offset() <= input.len(),
            depth > 0,
            inner == depth - 1,
        ensures
            parse_members_spec(input, first, inner, Seq::empty()) == Ok::<
                (Seq<(Seq<char>, ValueView)>, nat),
                Failure,
            >((member_views(members@), distance(first, end))),
            first <= end,
            cursor.offset() == whitespace_end(input, end),
            !has_byte(input, cursor.offset(), COMMA),
        decreases input.len() - cursor.offset(),
    {
        let member = match parse_member(cursor, depth - 1) {
            Ok(member) => member,
            Err(e) => {
                *cursor = start;
                return Err(e);
            },
        };
        insert_member(&mut members, member.key, member.value);
        proof {
            end = cursor.offset();
        }
        cursor.skip_whitespace();
        if cursor.expect(COMMA).is_err() {
            break ;
        }
        cursor.skip_whitespace();
    }
    match cursor.expect(CLOSE_BRACE) {
        Ok(()) => Ok(members),
        Err(e) => {
            *cursor = start;
            Err(e)
        },
    }
}

/// Parses a whole document: one value, nested at most `MAX_DEPTH` deep, and
/// after it nothing but whitespace. What it returns is well formed.
pub fn parse_json(text: &str) -> (outcome: Result<JsonValue, ParseError>)
    ensures
        match outcome {
            Ok(v) => parse_document_spec(text.spec_bytes()) == Ok::<ValueView, Failure>(v@)
                && well_formed(v@, MAX_DEPTH as nat),
            Err(e) => parse_document_spec(text.spec_bytes()) == Err::<ValueView, Failure>(e@),
        },
{
    let mut cursor = Cursor::new(text);
    let value = parse_value(&mut cursor, MAX_DEPTH)?;
    cursor.skip_whitespace();
    if cursor.is_exhausted() {
        Ok(value)
    } else {
        Err(ParseError::new(ErrorKind::TrailingContent, cursor.position()))
    }
}

} // verus!
