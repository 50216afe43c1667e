//! Writing a value and parsing what was written gives the value back.

use crate::error::{ErrorKind, Failure};
use crate::exclusive::{leads, lemma_value_is_the_alternative};
use crate::grammar::{
    alternatives, decimal_value, digit_values, parse_array_spec, parse_bool_spec,
    parse_document_spec, parse_elements_spec, parse_member_spec, parse_members_spec, parse_num_spec,
    parse_object_spec, parse_string_spec, parse_value_spec, CLOSE_BRACE, CLOSE_BRACKET, COLON,
    COMMA, MAX_DEPTH, MINUS, OPEN_BRACE, OPEN_BRACKET, POINT, QUOTE,
};
use crate::lexical::{
    digits_end, has_byte, is_digit, is_whitespace, lemma_digits_end_is, lemma_find_is,
    lemma_occurs_byte, lemma_occurs_bytes, lemma_occurs_parts, lemma_whitespace_end_is, occurs_at,
    whitespace_end,
};
use crate::serialize::{
    decimal_number_text, decimal_text, digit_text, elements_text, members_text, num_text, separator,
    sign_text, string_text, value_text,
};
use crate::text::{lemma_keywords, lemma_quote_encoded};
use crate::value::{lemma_index_of_key, well_formed, with_member, DecimalView, NumView, ValueView};
use crate::wellformed::{lemma_parsed_value, members_well_formed};
use vstd::prelude::*;
use vstd::string::*;
use vstd::utf8::*;

verus! {

/// The digits of a number are ASCII digits, and there is at least one.
pub proof fn lemma_decimal_text_digits(n: nat)
    ensures
        decimal_text(n).len() > 0,
        forall|i: int| 0 <= i < decimal_text(n).len() ==> is_digit(#[trigger] decimal_text(n)[i]),
    decreases n,
{
    if n >= 10 {
        lemma_decimal_text_digits(n / 10);
    }
}

/// The digits of a number denote that number.
pub proof fn lemma_decimal_text_value(n: nat)
    ensures
        decimal_value(digit_values(decimal_text(n))) == n,
    decreases n,
{
    let text = decimal_text(n);
    let values = digit_values(text);
    if n < 10 {
        assert(values.drop_last() =~= Seq::<u8>::empty());
        assert(decimal_value(values.drop_last()) == 0);
    } else {
        lemma_decimal_text_value(n / 10);
        assert(values.drop_last() =~= digit_values(decimal_text(n / 10)));
    }
}

/// The text of a value is not empty, and begins with a byte that only its
/// own alternative begins with and that is no whitespace.
pub proof fn lemma_text_begins(v: ValueView, depth: nat)
    requires
        well_formed(v, depth),
    ensures
        value_text(v).len() > 0,
        !is_whitespace(value_text(v)[0]),
        leads(
            value_text(v)[0],
            match v {
                ValueView::Null => 0int,
                ValueView::Bool(_) => 1,
                ValueView::Number(_) => 2,
                ValueView::String(_) => 3,
                ValueView::Array(_) => 4,
                ValueView::Object(_) => 5,
            },
        ),
{
    lemma_keywords();
    match v {
        ValueView::Number(NumView::Int(i)) => {
            if i >= 0 {
                lemma_decimal_text_digits(i as nat);
            }
        },
        _ => {},
    }
}

/// Nothing that could prolong a number stands at `end`: the input ends
/// there, or goes on with a byte that is neither a digit nor a point.
pub open spec fn number_ends(input: Seq<u8>, end: int) -> bool {
    end >= input.len() || !(is_digit(input[end]) || input[end] == POINT)
}

/// A run of ASCII digits that occurs at `pos` and that no digit follows is
/// the run of digits at `pos`.
pub proof fn lemma_digits_occur(input: Seq<u8>, pos: int, digits: Seq<u8>)
    requires
        occurs_at(input, pos, digits),
        forall|i: int| 0 <= i < digits.len() ==> is_digit(#[trigger] digits[i]),
        pos + digits.len() < input.len() ==> !is_digit(input[pos + digits.len()]),
    ensures
        digits_end(input, pos) == pos + digits.len(),
{
    lemma_occurs_bytes(input, pos, digits);
    assert forall|i: int| pos <= i < pos + digits.len() implies is_digit(#[trigger] input[i]) by {
        assert(input[pos + (i - pos)] == digits[i - pos]);
    }
    lemma_digits_end_is(input, pos, pos + digits.len());
}

/// The text of an integer, where nothing prolongs it, parses as that
/// integer.
pub proof fn lemma_reparse_integer(input: Seq<u8>, pos: int, i: int)
    requires
        -i64::MAX <= i <= i64::MAX,
        occurs_at(input, pos, num_text(NumView::Int(i))),
        number_ends(input, pos + num_text(NumView::Int(i)).len()),
    ensures
        parse_num_spec(input, pos) == Ok::<(NumView, nat), Failure>(
            (NumView::Int(i), num_text(NumView::Int(i)).len()),
        ),
{
    let magnitude = if i < 0 {
        (-i) as nat
    } else {
        i as nat
    };
    let digits = decimal_text(magnitude);
    let start = if i < 0 {
        pos + 1
    } else {
        pos
    };
    lemma_decimal_text_digits(magnitude);
    lemma_decimal_text_value(magnitude);
    if i < 0 {
        lemma_occurs_parts(input, pos, seq![MINUS], digits);
        lemma_occurs_byte(input, pos, MINUS);
    } else {
        lemma_occurs_bytes(input, pos, digits);
        assert(input[pos + 0] == digits[0]);
    }
    lemma_digits_occur(input, start, digits);
    assert(input.subrange(start, start + digits.len()) == digits);
}

/// The digits that stand for digit values are ASCII digits, and stand for
/// those values.
pub proof fn lemma_digit_text(digits: Seq<u8>)
    requires
        forall|i: int| 0 <= i < digits.len() ==> #[trigger] digits[i] <= 9,
    ensures
        forall|i: int| 0 <= i < digits.len() ==> is_digit(#[trigger] digit_text(digits)[i]),
        digit_values(digit_text(digits)) == digits,
{
    assert(digit_values(digit_text(digits)) =~= digits);
}

/// The text of a decimal, where no digit follows it, parses as that
/// decimal.
pub proof fn lemma_reparse_decimal(input: Seq<u8>, pos: int, d: DecimalView)
    requires
        d.is_valid(),
        occurs_at(input, pos, decimal_number_text(d)),
        number_ends(input, pos + decimal_number_text(d).len()),
    ensures
        parse_num_spec(input, pos) == Ok::<(NumView, nat), Failure>(
            (NumView::Float(d), decimal_number_text(d).len()),
        ),
{
    let sign = sign_text(d.negative);
    let integer = digit_text(d.integer);
    let fraction = digit_text(d.fraction);
    let start = pos + sign.len();
    let point = start + integer.len();
    lemma_digit_text(d.integer);
    lemma_digit_text(d.fraction);
    lemma_occurs_parts(input, pos, sign + integer + seq![POINT], fraction);
    lemma_occurs_parts(input, pos, sign + integer, seq![POINT]);
    lemma_occurs_parts(input, pos, sign, integer);
    lemma_occurs_byte(input, point, POINT);
    if d.negative {
        lemma_occurs_byte(input, pos, MINUS);
    } else {
        lemma_occurs_bytes(input, start, integer);
        assert(input[start + 0] == integer[0]);
    }
    lemma_digits_occur(input, start, integer);
    lemma_digits_occur(input, point + 1, fraction);
    assert(input.subrange(start, point) == integer);
    assert(input.subrange(point + 1, point + 1 + fraction.len()) == fraction);
}

/// The text of a string without a quote parses as that string.
pub proof fn lemma_reparse_string(input: Seq<u8>, pos: int, s: Seq<char>)
    requires
        !s.contains('"'),
        occurs_at(input, pos, string_text(s)),
    ensures
        parse_string_spec(input, pos) == Ok::<(Seq<char>, nat), Failure>(
            (s, string_text(s).len()),
        ),
{
    let content = encode_utf8(s);
    let close = pos + 1 + content.len();
    lemma_quote_encoded(s);
    lemma_occurs_parts(input, pos, seq![QUOTE] + content, seq![QUOTE]);
    lemma_occurs_parts(input, pos, seq![QUOTE], content);
    lemma_occurs_byte(input, pos, QUOTE);
    lemma_occurs_bytes(input, pos + 1, content);
    assert forall|i: int| pos + 1 <= i < close implies !occurs_at(input, i, seq![QUOTE]) by {
        lemma_occurs_byte(input, i, QUOTE);
        assert(input[pos + 1 + (i - pos - 1)] == content[i - pos - 1]);
    }
    lemma_find_is(input, pos + 1, seq![QUOTE], close);
    encode_utf8_decode_utf8(s);
    assert(input.subrange(pos + 1, close) == content);
}

/// Whether `gap` is made of whitespace only.
pub open spec fn is_gap(gap: Seq<u8>) -> bool {
    forall|i: int| 0 <= i < gap.len() ==> is_whitespace(#[trigger] gap[i])
}

/// The text of a value with `gap` at every place inside it where the
/// grammar allows whitespace: after an opening and before a closing bracket
/// or brace, and on both sides of every comma and colon.
pub open spec fn spaced_text(v: ValueView, gap: Seq<u8>) -> Seq<u8>
    decreases v, 0int,
{
    match v {
        ValueView::Array(items) => seq![OPEN_BRACKET] + gap + spaced_elements(items, 0, gap) + gap
            + seq![CLOSE_BRACKET],
        ValueView::Object(members) => seq![OPEN_BRACE] + gap + spaced_members(members, 0, gap)
            + gap + seq![CLOSE_BRACE],
        _ => value_text(v),
    }
}

/// A comma with `gap` on both sides, where an element or member follows at
/// index `from`.
pub open spec fn spaced_separator(len: nat, from: int, gap: Seq<u8>) -> Seq<u8> {
    if 0 < from < len {
        gap + seq![COMMA] + gap
    } else {
        Seq::empty()
    }
}

/// The spaced texts of the elements from index `from` on.
pub open spec fn spaced_elements(items: Seq<ValueView>, from: int, gap: Seq<u8>) -> Seq<u8>
    decreases items, items.len() - from,
{
    if 0 <= from < items.len() {
        spaced_text(items[from], gap) + spaced_separator(items.len(), from + 1, gap)
            + spaced_elements(items, from + 1, gap)
    } else {
        Seq::empty()
    }
}

/// The spaced text of one member.
pub open spec fn spaced_member(key: Seq<char>, value_text: Seq<u8>, gap: Seq<u8>) -> Seq<u8> {
    string_text(key) + gap + seq![COLON] + gap + value_text
}

/// The spaced texts of the members from index `from` on.
pub open spec fn spaced_members(
    members: Seq<(Seq<char>, ValueView)>,
    from: int,
    gap: Seq<u8>,
) -> Seq<u8>
    decreases members, members.len() - from,
{
    if 0 <= from < members.len() {
        spaced_member(members[from].0, spaced_text(members[from].1, gap), gap) + spaced_separator(
            members.len(),
            from + 1,
            gap,
        ) + spaced_members(members, from + 1, gap)
    } else {
        Seq::empty()
    }
}

/// With an empty gap the spaced text is the compact text.
pub proof fn lemma_compact(v: ValueView)
    ensures
        spaced_text(v, Seq::empty()) == value_text(v),
    decreases v, 0int,
{
    let none = Seq::<u8>::empty();
    match v {
        ValueView::Array(items) => {
            lemma_compact_elements(items, 0);
            assert(spaced_text(v, none) =~= value_text(v));
        },
        ValueView::Object(members) => {
            lemma_compact_members(members, 0);
            assert(spaced_text(v, none) =~= value_text(v));
        },
        _ => {},
    }
}

/// With an empty gap the spaced texts of elements are their compact texts.
pub proof fn lemma_compact_elements(items: Seq<ValueView>, from: int)
    ensures
        spaced_elements(items, from, Seq::empty()) == elements_text(items, from),
    decreases items, items.len() - from,
{
    let none = Seq::<u8>::empty();
    if 0 <= from < items.len() {
        lemma_compact(items[from]);
        lemma_compact_elements(items, from + 1);
        assert(spaced_separator(items.len(), from + 1, none) =~= separator(items.len(), from + 1));
    }
}

/// With an empty gap the spaced texts of members are their compact texts.
pub proof fn lemma_compact_members(members: Seq<(Seq<char>, ValueView)>, from: int)
    ensures
        spaced_members(members, from, Seq::empty()) == members_text(members, from),
    decreases members, members.len() - from,
{
    let none = Seq::<u8>::empty();
    if 0 <= from < members.len() {
        lemma_compact(members[from].1);
        lemma_compact_members(members, from + 1);
        assert(spaced_separator(members.len(), from + 1, none) =~= separator(
            members.len(),
            from + 1,
        ));
        assert(spaced_member(members[from].0, value_text(members[from].1), none) =~= string_text(
            members[from].0,
        ) + seq![COLON] + value_text(members[from].1));
    }
}

/// The spaced text of a value begins as its compact text does.
pub proof fn lemma_spaced_begins(v: ValueView, depth: nat, gap: Seq<u8>)
    requires
        well_formed(v, depth),
    ensures
        spaced_text(v, gap).len() > 0,
        !is_whitespace(spaced_text(v, gap)[0]),
{
    lemma_text_begins(v, depth);
}

/// A gap that occurs at `pos`, before a byte that is no whitespace or at
/// the end of the input, is the whitespace at `pos`.
pub proof fn lemma_gap(input: Seq<u8>, pos: int, gap: Seq<u8>)
    requires
        is_gap(gap),
        occurs_at(input, pos, gap),
        pos + gap.len() < input.len() ==> !is_whitespace(input[pos + gap.len()]),
    ensures
        whitespace_end(input, pos) == pos + gap.len(),
{
    lemma_occurs_bytes(input, pos, gap);
    assert forall|i: int| pos <= i < pos + gap.len() implies is_whitespace(#[trigger] input[i]) by {
        assert(input[pos + (i - pos)] == gap[i - pos]);
    }
    lemma_whitespace_end_is(input, pos, pos + gap.len());
}

/// Where a gap and then a byte that ends no number stand, no number goes on.
pub proof fn lemma_gap_ends_number(input: Seq<u8>, end: int, gap: Seq<u8>, next: u8)
    requires
        is_gap(gap),
        occurs_at(input, end, gap),
        has_byte(input, end + gap.len(), next),
        !is_digit(next),
        next != POINT,
    ensures
        number_ends(input, end),
{
    lemma_occurs_bytes(input, end, gap);
    if gap.len() > 0 {
        assert(input[end + 0] == gap[0]);
    }
}

/// The spaced text of a well-formed value, where nothing prolongs it,
/// parses as that value and is consumed whole.
pub proof fn lemma_respell_value(
    input: Seq<u8>,
    pos: int,
    v: ValueView,
    depth: nat,
    gap: Seq<u8>,
)
    requires
        well_formed(v, depth),
        is_gap(gap),
        occurs_at(input, pos, spaced_text(v, gap)),
        v is Number ==> number_ends(input, pos + spaced_text(v, gap).len()),
    ensures
        parse_value_spec(input, pos, depth) == Ok::<(ValueView, nat), Failure>(
            (v, spaced_text(v, gap).len()),
        ),
    decreases v, 0int,
{
    reveal(alternatives);
    let outcomes = alternatives(input, pos, depth);
    let expected = Ok::<(ValueView, nat), Failure>((v, spaced_text(v, gap).len()));
    match v {
        ValueView::Null => {
            assert(outcomes[0] == expected);
            lemma_value_is_the_alternative(input, pos, depth, 0);
        },
        ValueView::Bool(b) => {
            if !b {
                lemma_keywords();
                lemma_occurs_bytes(input, pos, "false".spec_bytes());
                assert(input[pos + 0] == "false".spec_bytes()[0]);
                if occurs_at(input, pos, "true".spec_bytes()) {
                    lemma_occurs_bytes(input, pos, "true".spec_bytes());
                    assert(input[pos + 0] == "true".spec_bytes()[0]);
                }
            }
            assert(outcomes[1] == expected);
            lemma_value_is_the_alternative(input, pos, depth, 1);
        },
        ValueView::Number(NumView::Int(i)) => {
            lemma_reparse_integer(input, pos, i);
            assert(outcomes[2] == expected);
            lemma_value_is_the_alternative(input, pos, depth, 2);
        },
        ValueView::Number(NumView::Float(d)) => {
            lemma_reparse_decimal(input, pos, d);
            assert(outcomes[2] == expected);
            lemma_value_is_the_alternative(input, pos, depth, 2);
        },
        ValueView::String(s) => {
            lemma_reparse_string(input, pos, s);
            assert(outcomes[3] == expected);
            lemma_value_is_the_alternative(input, pos, depth, 3);
        },
        ValueView::Array(items) => {
            lemma_respell_array(input, pos, items, depth, gap);
            assert(outcomes[4] == expected);
            lemma_value_is_the_alternative(input, pos, depth, 4);
        },
        ValueView::Object(members) => {
            lemma_respell_object(input, pos, members, depth, gap);
            assert(outcomes[5] == expected);
            lemma_value_is_the_alternative(input, pos, depth, 5);
        },
    }
}

/// The spaced text of a well-formed array parses as the elements of that
/// array.
pub proof fn lemma_respell_array(
    input: Seq<u8>,
    pos: int,
    items: Seq<ValueView>,
    depth: nat,
    gap: Seq<u8>,
)
    requires
        well_formed(ValueView::Array(items), depth),
        is_gap(gap),
        occurs_at(input, pos, spaced_text(ValueView::Array(items), gap)),
    ensures
        parse_array_spec(input, pos, depth) == Ok::<(Seq<ValueView>, nat), Failure>(
            (items, spaced_text(ValueView::Array(items), gap).len()),
        ),
    decreases items, items.len() + 1,
{
    let inside = spaced_elements(items, 0, gap);
    let inner = (depth - 1) as nat;
    let first = pos + 1 + gap.len();
    let after = first + inside.len();
    let close = after + gap.len();
    lemma_occurs_parts(input, pos, seq![OPEN_BRACKET] + gap + inside + gap, seq![CLOSE_BRACKET]);
    lemma_occurs_parts(input, pos, seq![OPEN_BRACKET] + gap + inside, gap);
    lemma_occurs_parts(input, pos, seq![OPEN_BRACKET] + gap, inside);
    lemma_occurs_parts(input, pos, seq![OPEN_BRACKET], gap);
    lemma_occurs_byte(input, pos, OPEN_BRACKET);
    lemma_occurs_byte(input, close, CLOSE_BRACKET);
    lemma_spaced_begins(items[0], inner, gap);
    lemma_occurs_bytes(input, first, inside);
    assert(input[first + 0] == inside[0]);
    lemma_gap(input, pos + 1, gap);
    assert(items.take(0) =~= Seq::<ValueView>::empty());
    lemma_respell_elements(input, first, items, 0, inner, gap);
    lemma_gap(input, after, gap);
}

/// The spaced texts of the elements of an array from index `from` on,
/// before a gap and the closing bracket, parse as those elements, after the
/// ones before them.
pub proof fn lemma_respell_elements(
    input: Seq<u8>,
    pos: int,
    items: Seq<ValueView>,
    from: int,
    depth: nat,
    gap: Seq<u8>,
)
    requires
        0 <= from < items.len(),
        forall|i: int| 0 <= i < items.len() ==> well_formed(#[trigger] items[i], depth),
        is_gap(gap),
        occurs_at(input, pos, spaced_elements(items, from, gap)),
        occurs_at(input, pos + spaced_elements(items, from, gap).len(), gap),
        has_byte(
            input,
            pos + spaced_elements(items, from, gap).len() + gap.len(),
            CLOSE_BRACKET,
        ),
    ensures
        parse_elements_spec(input, pos, depth, items.take(from)) == Ok::<
            (Seq<ValueView>, nat),
            Failure,
        >((items, spaced_elements(items, from, gap).len())),
    decreases items, items.len() - from,
{
    let v = items[from];
    let text = spaced_text(v, gap);
    let sep = spaced_separator(items.len(), from + 1, gap);
    let rest = spaced_elements(items, from + 1, gap);
    let end = pos + text.len();
    lemma_occurs_parts(input, pos, text + sep, rest);
    lemma_occurs_parts(input, pos, text, sep);
    assert(items.take(from).push(v) =~= items.take(from + 1));
    if from + 1 < items.len() {
        let comma = end + gap.len();
        let next = comma + 1 + gap.len();
        lemma_occurs_parts(input, end, gap + seq![COMMA], gap);
        lemma_occurs_parts(input, end, gap, seq![COMMA]);
        lemma_occurs_byte(input, comma, COMMA);
        lemma_gap_ends_number(input, end, gap, COMMA);
        lemma_respell_value(input, pos, v, depth, gap);
        lemma_gap(input, end, gap);
        lemma_spaced_begins(items[from + 1], depth, gap);
        lemma_occurs_bytes(input, next, rest);
        assert(input[next + 0] == rest[0]);
        lemma_gap(input, comma + 1, gap);
        lemma_respell_elements(input, next, items, from + 1, depth, gap);
    } else {
        assert(rest =~= Seq::<u8>::empty());
        assert(sep =~= Seq::<u8>::empty());
        lemma_gap_ends_number(input, end, gap, CLOSE_BRACKET);
        lemma_respell_value(input, pos, v, depth, gap);
        lemma_gap(input, end, gap);
        assert(items.take(from + 1) =~= items);
    }
}

/// The spaced text of a member of a well-formed object parses as that
/// member.
pub proof fn lemma_respell_member(
    input: Seq<u8>,
    pos: int,
    key: Seq<char>,
    value: ValueView,
    depth: nat,
    gap: Seq<u8>,
)
    requires
        !key.contains('"'),
        well_formed(value, depth),
        is_gap(gap),
        occurs_at(input, pos, spaced_member(key, spaced_text(value, gap), gap)),
        number_ends(input, pos + spaced_member(key, spaced_text(value, gap), gap).len()),
    ensures
        parse_member_spec(input, pos, depth) == Ok::<((Seq<char>, ValueView), nat), Failure>(
            ((key, value), spaced_member(key, spaced_text(value, gap), gap).len()),
        ),
    decreases value, 1int,
{
    let name = string_text(key);
    let text = spaced_text(value, gap);
    let after = pos + name.len();
    let colon = after + gap.len();
    let start = colon + 1 + gap.len();
    lemma_occurs_parts(input, pos, name + gap + seq![COLON] + gap, text);
    lemma_occurs_parts(input, pos, name + gap + seq![COLON], gap);
    lemma_occurs_parts(input, pos, name + gap, seq![COLON]);
    lemma_occurs_parts(input, pos, name, gap);
    lemma_occurs_byte(input, colon, COLON);
    lemma_reparse_string(input, pos, key);
    lemma_gap(input, after, gap);
    lemma_spaced_begins(value, depth, gap);
    lemma_occurs_bytes(input, start, text);
    assert(input[start + 0] == text[0]);
    lemma_gap(input, colon + 1, gap);
    lemma_respell_value(input, start, value, depth, gap);
}

/// The spaced text of a well-formed object parses as the members of that
/// object.
pub proof fn lemma_respell_object(
    input: Seq<u8>,
    pos: int,
    members: Seq<(Seq<char>, ValueView)>,
    depth: nat,
    gap: Seq<u8>,
)
    requires
        well_formed(ValueView::Object(members), depth),
        is_gap(gap),
        occurs_at(input, pos, spaced_text(ValueView::Object(members), gap)),
    ensures
        parse_object_spec(input, pos, depth) == Ok::<(Seq<(Seq<char>, ValueView)>, nat), Failure>(
            (members, spaced_text(ValueView::Object(members), gap).len()),
        ),
    decreases members, members.len() + 1,
{
    let inside = spaced_members(members, 0, gap);
    let inner = (depth - 1) as nat;
    let first = pos + 1 + gap.len();
    let after = first + inside.len();
    let close = after + gap.len();
    lemma_occurs_parts(input, pos, seq![OPEN_BRACE] + gap + inside + gap, seq![CLOSE_BRACE]);
    lemma_occurs_parts(input, pos, seq![OPEN_BRACE] + gap + inside, gap);
    lemma_occurs_parts(input, pos, seq![OPEN_BRACE] + gap, inside);
    lemma_occurs_parts(input, pos, seq![OPEN_BRACE], gap);
    lemma_occurs_byte(input, pos, OPEN_BRACE);
    lemma_occurs_byte(input, close, CLOSE_BRACE);
    lemma_occurs_bytes(input, first, inside);
    assert(inside[0] == QUOTE);
    assert(input[first + 0] == inside[0]);
    lemma_gap(input, pos + 1, gap);
    assert(members.take(0) =~= Seq::<(Seq<char>, ValueView)>::empty());
    lemma_respell_members(input, first, members, 0, inner, gap);
    lemma_gap(input, after, gap);
}

/// The spaced texts of the members of an object from index `from` on,
/// before a gap and the closing brace, parse as those members, after the
/// ones before them.
pub proof fn lemma_respell_members(
    input: Seq<u8>,
    pos: int,
    members: Seq<(Seq<char>, ValueView)>,
    from: int,
    depth: nat,
    gap: Seq<u8>,
)
    requires
        0 <= from < members.len(),
        members_well_formed(members, depth),
        is_gap(gap),
        occurs_at(input, pos, spaced_members(members, from, gap)),
        occurs_at(input, pos + spaced_members(members, from, gap).len(), gap),
        has_byte(input, pos + spaced_members(members, from, gap).len() + gap.len(), CLOSE_BRACE),
    ensures
        parse_members_spec(input, pos, depth, members.take(from)) == Ok::<
            (Seq<(Seq<char>, ValueView)>, nat),
            Failure,
        >((members, spaced_members(members, from, gap).len())),
    decreases members, members.len() - from,
{
    let key = members[from].0;
    let value = members[from].1;
    let text = spaced_member(key, spaced_text(value, gap), gap);
    let sep = spaced_separator(members.len(), from + 1, gap);
    let rest = spaced_members(members, from + 1, gap);
    let end = pos + text.len();
    let before = members.take(from);
    lemma_occurs_parts(input, pos, text + sep, rest);
    lemma_occurs_parts(input, pos, text, sep);
    lemma_index_of_key(before, key);
    assert(with_member(before, key, value) =~= members.take(from + 1));
    if from + 1 < members.len() {
        let comma = end + gap.len();
        let next = comma + 1 + gap.len();
        lemma_occurs_parts(input, end, gap + seq![COMMA], gap);
        lemma_occurs_parts(input, end, gap, seq![COMMA]);
        lemma_occurs_byte(input, comma, COMMA);
        lemma_gap_ends_number(input, end, gap, COMMA);
        lemma_respell_member(input, pos, key, value, depth, gap);
        lemma_gap(input, end, gap);
        lemma_occurs_bytes(input, next, rest);
        assert(rest[0] == QUOTE);
        assert(input[next + 0] == rest[0]);
        lemma_gap(input, comma + 1, gap);
        lemma_respell_members(input, next, members, from + 1, depth, gap);
    } else {
        assert(rest =~= Seq::<u8>::empty());
        assert(sep =~= Seq::<u8>::empty());
        lemma_gap_ends_number(input, end, gap, CLOSE_BRACE);
        lemma_respell_member(input, pos, key, value, depth, gap);
        lemma_gap(input, end, gap);
        assert(members.take(from + 1) =~= members);
    }
}

/// A well-formed value parses as a document to itself from its spaced text,
/// with whitespace after it or without: whitespace where the grammar allows
/// it changes nothing.
pub proof fn lemma_spaced_value_parses(v: ValueView, gap: Seq<u8>)
    requires
        well_formed(v, MAX_DEPTH as nat),
        is_gap(gap),
    ensures
        parse_document_spec(spaced_text(v, gap)) == Ok::<ValueView, Failure>(v),
        parse_document_spec(spaced_text(v, gap) + gap) == Ok::<ValueView, Failure>(v),
{
    let text = spaced_text(v, gap);
    let trailed = text + gap;
    assert(text.subrange(0, text.len() as int) =~= text);
    lemma_respell_value(text, 0, v, MAX_DEPTH as nat, gap);
    assert(whitespace_end(text, text.len() as int) == text.len());
    assert(trailed.subrange(0, text.len() as int) =~= text);
    assert(trailed.subrange(text.len() as int, trailed.len() as int) =~= gap);
    lemma_occurs_bytes(trailed, text.len() as int, gap);
    if gap.len() > 0 {
        assert(trailed[text.len() as int + 0] == gap[0]);
    }
    lemma_respell_value(trailed, 0, v, MAX_DEPTH as nat, gap);
    lemma_gap(trailed, text.len() as int, gap);
}

/// A well-formed value, written as compact text and parsed as a document,
/// comes back as it was.
pub proof fn lemma_written_value_parses(v: ValueView)
    requires
        well_formed(v, MAX_DEPTH as nat),
    ensures
        parse_document_spec(value_text(v)) == Ok::<ValueView, Failure>(v),
{
    lemma_compact(v);
    lemma_spaced_value_parses(v, Seq::empty());
}

/// What a document parses to, written as compact text, parses to the same
/// value again.
pub proof fn lemma_round_trip(input: Seq<u8>)
    requires
        valid_utf8(input),
        parse_document_spec(input) is Ok,
    ensures
        parse_document_spec(value_text(parse_document_spec(input)->Ok_0)) == parse_document_spec(
            input,
        ),
{
    lemma_parsed_value(input, 0, MAX_DEPTH as nat);
    lemma_written_value_parses(parse_document_spec(input)->Ok_0);
}

/// The text `true` parses as the boolean true and the text `false` as the
/// boolean false, each to its end.
pub proof fn lemma_bool_literal(b: bool)
    ensures
        parse_bool_spec(value_text(ValueView::Bool(b)), 0) == Ok::<(bool, nat), Failure>(
            (b, value_text(ValueView::Bool(b)).len()),
        ),
        parse_document_spec(value_text(ValueView::Bool(b))) == Ok::<ValueView, Failure>(
            ValueView::Bool(b),
        ),
{
    let text = value_text(ValueView::Bool(b));
    lemma_keywords();
    assert(text.subrange(0, text.len() as int) =~= text);
    if !b {
        if occurs_at(text, 0, "true".spec_bytes()) {
            lemma_occurs_bytes(text, 0, "true".spec_bytes());
            assert(text[0int + 0] == "true".spec_bytes()[0]);
        }
    }
    lemma_written_value_parses(ValueView::Bool(b));
}

/// The text of a number literal: an optional `-`, digits, and optionally a
/// point with digits after it.
pub open spec fn number_literal(negative: bool, integer: Seq<u8>, fraction: Option<Seq<u8>>) -> Seq<
    u8,
> {
    match fraction {
        Some(digits) => sign_text(negative) + digit_text(integer) + seq![POINT] + digit_text(
            digits,
        ),
        None => sign_text(negative) + digit_text(integer),
    }
}

/// A number literal parses to its end. Without a point it is the integer
/// that its digits denote, negated after a `-`, unless that exceeds
/// `i64::MAX`. With a point it is the decimal with its sign and its digits,
/// whatever the digits are.
pub proof fn lemma_number_literal(negative: bool, integer: Seq<u8>, fraction: Option<Seq<u8>>)
    requires
        integer.len() > 0,
        forall|i: int| 0 <= i < integer.len() ==> #[trigger] integer[i] <= 9,
        fraction matches Some(digits) ==> digits.len() > 0 && forall|i: int|
            0 <= i < digits.len() ==> #[trigger] digits[i] <= 9,
    ensures
        parse_num_spec(number_literal(negative, integer, fraction), 0) == (match fraction {
            Some(digits) => Ok::<(NumView, nat), Failure>(
                (
                    NumView::Float(DecimalView { negative, integer, fraction: digits }),
                    number_literal(negative, integer, fraction).len(),
                ),
            ),
            None => if decimal_value(integer) > i64::MAX {
                Err(Failure { kind: ErrorKind::NumberOutOfRange, offset: 0 })
            } else {
                Ok(
                    (
                        NumView::Int(
                            if negative {
                                -(decimal_value(integer) as int)
                            } else {
                                decimal_value(integer) as int
                            },
                        ),
                        number_literal(negative, integer, fraction).len(),
                    ),
                )
            },
        }),
{
    let text = number_literal(negative, integer, fraction);
    assert(text.subrange(0, text.len() as int) =~= text);
    match fraction {
        Some(digits) => {
            lemma_reparse_decimal(text, 0, DecimalView { negative, integer, fraction: digits });
        },
        None => {
            let sign = sign_text(negative);
            let run = digit_text(integer);
            let start = sign.len() as int;
            lemma_digit_text(integer);
            lemma_occurs_parts(text, 0, sign, run);
            if negative {
                lemma_occurs_byte(text, 0, MINUS);
            } else {
                lemma_occurs_bytes(text, start, run);
                assert(text[start + 0] == run[0]);
            }
            lemma_digits_occur(text, start, run);
            assert(text.subrange(start, start + run.len()) == run);
        },
    }
}

} // verus!
