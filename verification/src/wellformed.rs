//! What the parser yields is well formed, and lies within the input.

use crate::grammar::{
    alternatives, first_of, lemma_first_of_is_one, parse_array_spec, parse_elements_spec,
    parse_member_spec, parse_members_spec, parse_num_spec, parse_object_spec, parse_string_spec,
    parse_value_spec, COLON, COMMA, MINUS, OPEN_BRACE, OPEN_BRACKET, POINT, QUOTE,
};
use crate::lexical::{
    digits_end, find, has_byte, lemma_digits_end, lemma_find, lemma_occurs_byte,
    lemma_whitespace_end, whitespace_end,
};
use crate::text::{
    lemma_boundary_after_ascii, lemma_boundary_in_prefix, lemma_keywords, lemma_quote_encoded,
};
use crate::value::{lemma_index_of_key, well_formed, with_member, ValueView};
use vstd::prelude::*;
use vstd::utf8::*;

verus! {

/// What holds of the members of a well-formed object: no key holds a quote,
/// no key occurs twice, and every value is well formed.
pub open spec fn members_well_formed(members: Seq<(Seq<char>, ValueView)>, depth: nat) -> bool {
    &&& forall|i: int|
        0 <= i < members.len() ==> !(#[trigger] members[i]).0.contains('"') && well_formed(
            members[i].1,
            depth,
        )
    &&& forall|i: int, j: int|
        0 <= i < j < members.len() ==> (#[trigger] members[i]).0 != (#[trigger] members[j]).0
}

/// A number that parses is well formed.
pub proof fn lemma_parsed_num(input: Seq<u8>, pos: int)
    requires
        0 <= pos,
    ensures
        parse_num_spec(input, pos) matches Ok((n, taken)) ==> well_formed(
            ValueView::Number(n),
            0,
        ) && taken > 0 && pos + taken <= input.len(),
{
    if pos <= input.len() {
        let start = if has_byte(input, pos, MINUS) {
            pos + 1
        } else {
            pos
        };
        let point = digits_end(input, start);
        lemma_digits_end(input, start);
        if has_byte(input, point, POINT) {
            lemma_digits_end(input, point + 1);
        }
    }
}

/// A string that parses holds no quote.
pub proof fn lemma_parsed_string(input: Seq<u8>, pos: int)
    requires
        valid_utf8(input),
        0 <= pos,
    ensures
        parse_string_spec(input, pos) matches Ok((s, taken)) ==> !s.contains('"') && taken > 0
            && pos + taken <= input.len(),
{
    if let Ok((s, taken)) = parse_string_spec(input, pos) {
        let close = find(input, pos + 1, seq![QUOTE])->Some_0;
        let content = input.subrange(pos + 1, close);
        lemma_find(input, pos + 1, seq![QUOTE]);
        lemma_occurs_byte(input, close, QUOTE);
        assert(!content.contains(QUOTE)) by {
            if content.contains(QUOTE) {
                let k = choose|k: int| 0 <= k < content.len() && content[k] == QUOTE;
                lemma_occurs_byte(input, pos + 1 + k, QUOTE);
            }
        }
        assert(valid_utf8(content)) by {
            is_char_boundary_iff_not_is_continuation_byte(input, pos);
            lemma_boundary_after_ascii(input, pos, pos + 1);
            is_char_boundary_iff_not_is_continuation_byte(input, close);
            valid_utf8_split(input, close);
            let head = input.subrange(0, close);
            lemma_boundary_in_prefix(input, pos + 1, close);
            valid_utf8_split(head, pos + 1);
            assert(head.subrange(pos + 1, head.len() as int) =~= content);
        }
        decode_utf8_encode_utf8(content);
        lemma_quote_encoded(s);
    }
}

/// A value that parses is well formed, is not empty, and ends within the
/// input.
pub proof fn lemma_parsed_value(input: Seq<u8>, pos: int, depth: nat)
    requires
        valid_utf8(input),
        0 <= pos,
    ensures
        parse_value_spec(input, pos, depth) matches Ok((v, taken)) ==> well_formed(v, depth)
            && taken > 0 && pos + taken <= input.len(),
    decreases input.len() - pos, 3int,
{
    reveal(alternatives);
    let outcomes = alternatives(input, pos, depth);
    assert(parse_value_spec(input, pos, depth) == first_of(outcomes, pos));
    if first_of(outcomes, pos) is Ok {
        lemma_first_of_is_one(outcomes, pos);
        let k = choose|k: int| 0 <= k < outcomes.len() && outcomes[k] == first_of(outcomes, pos);
        lemma_keywords();
        if k == 2 {
            lemma_parsed_num(input, pos);
        } else if k == 3 {
            lemma_parsed_string(input, pos);
        } else if k == 4 {
            lemma_parsed_array(input, pos, depth);
        } else if k == 5 {
            lemma_parsed_object(input, pos, depth);
        }
    }
}

/// An array that parses is well formed.
pub proof fn lemma_parsed_array(input: Seq<u8>, pos: int, depth: nat)
    requires
        valid_utf8(input),
        0 <= pos,
    ensures
        parse_array_spec(input, pos, depth) matches Ok((items, taken)) ==> well_formed(
            ValueView::Array(items),
            depth,
        ) && taken > 0 && pos + taken <= input.len(),
    decreases input.len() - pos, 1int,
{
    if has_byte(input, pos, OPEN_BRACKET) && depth > 0 {
        let first = whitespace_end(input, pos + 1);
        let inner = (depth - 1) as nat;
        lemma_whitespace_end(input, pos + 1);
        lemma_parsed_elements(input, first, inner, Seq::empty());
        if let Ok((items, taken)) = parse_elements_spec(input, first, inner, Seq::empty()) {
            lemma_whitespace_end(input, first + taken);
        }
    }
}

/// The elements of an array that parse are well formed, after well-formed
/// ones, and there is at least one.
pub proof fn lemma_parsed_elements(
    input: Seq<u8>,
    pos: int,
    depth: nat,
    parsed: Seq<ValueView>,
)
    requires
        valid_utf8(input),
        0 <= pos,
        forall|i: int| 0 <= i < parsed.len() ==> well_formed(#[trigger] parsed[i], depth),
    ensures
        parse_elements_spec(input, pos, depth, parsed) matches Ok((items, taken)) ==> {
            &&& items.len() > 0
            &&& forall|i: int| 0 <= i < items.len() ==> well_formed(#[trigger] items[i], depth)
            &&& taken > 0
            &&& pos + taken <= input.len()
        },
    decreases input.len() - pos, 4int,
{
    lemma_parsed_value(input, pos, depth);
    if let Ok((value, taken)) = parse_value_spec(input, pos, depth) {
        let comma = whitespace_end(input, pos + taken);
        lemma_whitespace_end(input, pos + taken);
        if has_byte(input, comma, COMMA) {
            let next = whitespace_end(input, comma + 1);
            lemma_whitespace_end(input, comma + 1);
            lemma_parsed_elements(input, next, depth, parsed.push(value));
        }
    }
}

/// A member that parses has a key without a quote and a well-formed value.
pub proof fn lemma_parsed_member(input: Seq<u8>, pos: int, depth: nat)
    requires
        valid_utf8(input),
        0 <= pos,
    ensures
        parse_member_spec(input, pos, depth) matches Ok((member, taken)) ==> {
            &&& !member.0.contains('"')
            &&& well_formed(member.1, depth)
            &&& taken > 0
            &&& pos + taken <= input.len()
        },
    decreases input.len() - pos, 4int,
{
    lemma_parsed_string(input, pos);
    if let Ok((key, taken)) = parse_string_spec(input, pos) {
        let colon = whitespace_end(input, pos + taken);
        lemma_whitespace_end(input, pos + taken);
        if has_byte(input, colon, COLON) {
            let start = whitespace_end(input, colon + 1);
            lemma_whitespace_end(input, colon + 1);
            lemma_parsed_value(input, start, depth);
        }
    }
}

/// Mapping a key without a quote to a well-formed value keeps the members
/// of an object well formed.
pub proof fn lemma_with_member(
    members: Seq<(Seq<char>, ValueView)>,
    key: Seq<char>,
    value: ValueView,
    depth: nat,
)
    requires
        members_well_formed(members, depth),
        !key.contains('"'),
        well_formed(value, depth),
    ensures
        members_well_formed(with_member(members, key, value), depth),
        with_member(members, key, value).len() > 0,
{
    lemma_index_of_key(members, key);
}

/// An object that parses is well formed.
pub proof fn lemma_parsed_object(input: Seq<u8>, pos: int, depth: nat)
    requires
        valid_utf8(input),
        0 <= pos,
    ensures
        parse_object_spec(input, pos, depth) matches Ok((members, taken)) ==> well_formed(
            ValueView::Object(members),
            depth,
        ) && taken > 0 && pos + taken <= input.len(),
    decreases input.len() - pos, 1int,
{
    if has_byte(input, pos, OPEN_BRACE) && depth > 0 {
        let first = whitespace_end(input, pos + 1);
        let inner = (depth - 1) as nat;
        lemma_whitespace_end(input, pos + 1);
        lemma_parsed_members(input, first, inner, Seq::empty());
        if let Ok((members, taken)) = parse_members_spec(input, first, inner, Seq::empty()) {
            lemma_whitespace_end(input, first + taken);
        }
    }
}

/// The members of an object that parse are well formed, after well-formed
/// ones, and there is at least one.
pub proof fn lemma_parsed_members(
    input: Seq<u8>,
    pos: int,
    depth: nat,
    parsed: Seq<(Seq<char>, ValueView)>,
)
    requires
        valid_utf8(input),
        0 <= pos,
        members_well_formed(parsed, depth),
    ensures
        parse_members_spec(input, pos, depth, parsed) matches Ok((members, taken)) ==> {
            &&& members.len() > 0
            &&& members_well_formed(members, depth)
            &&& taken > 0
            &&& pos + taken <= input.len()
        },
    decreases input.len() - pos, 5int,
{
    lemma_parsed_member(input, pos, depth);
    if let Ok((member, taken)) = parse_member_spec(input, pos, depth) {
        let members = with_member(parsed, member.0, member.1);
        let comma = whitespace_end(input, pos + taken);
        lemma_with_member(parsed, member.0, member.1, depth);
        lemma_whitespace_end(input, pos + taken);
        if has_byte(input, comma, COMMA) {
            let next = whitespace_end(input, comma + 1);
            lemma_whitespace_end(input, comma + 1);
            lemma_parsed_members(input, next, depth, members);
        }
    }
}

} // verus!
