//! Writing a value back as compact text: no whitespace, numbers in the
//! shortest form, strings as they are.

use crate::grammar::{
    CLOSE_BRACE, CLOSE_BRACKET, COLON, COMMA, MINUS, OPEN_BRACE, OPEN_BRACKET, POINT, QUOTE,
};
use crate::text::{lemma_encode_concat, lemma_punctuation};
use crate::value::{
    element_views, member_views, Decimal, DecimalView, JsonValue, Member, Num, NumView, ValueView,
};
use vstd::prelude::*;
use vstd::string::*;
use vstd::utf8::*;

verus! {

/// The decimal digits of `n` in ASCII, without leading zeros.
pub open spec fn decimal_text(n: nat) -> Seq<u8>
    decreases n,
{
    if n < 10 {
        seq![(0x30 + n) as u8]
    } else {
        decimal_text(n / 10).push((0x30 + n % 10) as u8)
    }
}

/// A sequence of digits in ASCII.
pub open spec fn digit_text(digits: Seq<u8>) -> Seq<u8> {
    Seq::new(digits.len(), |i: int| (0x30 + digits[i]) as u8)
}

/// A `-` for a negative number, nothing otherwise.
pub open spec fn sign_text(negative: bool) -> Seq<u8> {
    if negative {
        seq![MINUS]
    } else {
        Seq::empty()
    }
}

/// The text of a decimal: sign, digits, point, digits.
pub open spec fn decimal_number_text(d: DecimalView) -> Seq<u8> {
    sign_text(d.negative) + digit_text(d.integer) + seq![POINT] + digit_text(d.fraction)
}

/// The text of a number.
pub open spec fn num_text(n: NumView) -> Seq<u8> {
    match n {
        NumView::Int(i) => if i < 0 {
            seq![MINUS] + decimal_text((-i) as nat)
        } else {
            decimal_text(i as nat)
        },
        NumView::Float(d) => decimal_number_text(d),
    }
}

/// The text of a string: its characters between quotes.
pub open spec fn string_text(s: Seq<char>) -> Seq<u8> {
    seq![QUOTE] + encode_utf8(s) + seq![QUOTE]
}

/// The text of a value.
pub open spec fn value_text(v: ValueView) -> Seq<u8>
    decreases v, 0int,
{
    match v {
        ValueView::Null => "null".spec_bytes(),
        ValueView::Bool(b) => if b {
            "true".spec_bytes()
        } else {
            "false".spec_bytes()
        },
        ValueView::Number(n) => num_text(n),
        ValueView::String(s) => string_text(s),
        ValueView::Array(items) => seq![OPEN_BRACKET] + elements_text(items, 0) + seq![
            CLOSE_BRACKET,
        ],
        ValueView::Object(members) => seq![OPEN_BRACE] + members_text(members, 0) + seq![
            CLOSE_BRACE,
        ],
    }
}

/// A comma where an element or member follows at index `from`.
pub open spec fn separator(len: nat, from: int) -> Seq<u8> {
    if 0 < from < len {
        seq![COMMA]
    } else {
        Seq::empty()
    }
}

/// The texts of the elements from index `from` on, with commas between.
pub open spec fn elements_text(items: Seq<ValueView>, from: int) -> Seq<u8>
    decreases items, items.len() - from,
{
    if 0 <= from < items.len() {
        value_text(items[from]) + separator(items.len(), from + 1) + elements_text(
            items,
            from + 1,
        )
    } else {
        Seq::empty()
    }
}

/// The texts of the members from index `from` on, with commas between.
pub open spec fn members_text(members: Seq<(Seq<char>, ValueView)>, from: int) -> Seq<u8>
    decreases members, members.len() - from,
{
    if 0 <= from < members.len() {
        string_text(members[from].0) + seq![COLON] + value_text(members[from].1) + separator(
            members.len(),
            from + 1,
        ) + members_text(members, from + 1)
    } else {
        Seq::empty()
    }
}

/// Appends `piece` to `out`.
pub(crate) fn append_text(out: &mut String, piece: &str)
    ensures
        encode_utf8(final(out)@) == encode_utf8(old(out)@) + piece.spec_bytes(),
{
    proof {
        lemma_encode_concat(out@, piece@);
    }
    out.append(piece);
}

/// Appends the digit `digit` to `out`.
fn append_digit(out: &mut String, digit: u8)
    requires
        digit <= 9,
    ensures
        encode_utf8(final(out)@) == encode_utf8(old(out)@) + seq![(0x30 + digit) as u8],
{
    let digits = "0123456789";
    proof {
        reveal_strlit("0123456789");
    }
    let piece = digits.substring_ascii(digit as usize, digit as usize + 1);
    proof {
        is_ascii_chars_encode_utf8(piece@);
        assert(piece.spec_bytes() =~= seq![(0x30 + digit) as u8]);
    }
    append_text(out, piece);
}

/// Appends the decimal digits of `n` to `out`.
pub(crate) fn append_decimal(out: &mut String, n: u64)
    ensures
        encode_utf8(final(out)@) == encode_utf8(old(out)@) + decimal_text(n as nat),
    decreases n,
{
    if n >= 10 {
        append_decimal(out, n / 10);
    }
    append_digit(out, (n % 10) as u8);
    assert(encode_utf8(out@) =~= encode_utf8(old(out)@) + decimal_text(n as nat));
}

/// Appends a run of digits to `out`.
fn append_digits(out: &mut String, digits: &Vec<u8>)
    requires
        forall|i: int| 0 <= i < digits@.len() ==> #[trigger] digits@[i] <= 9,
    ensures
        encode_utf8(final(out)@) == encode_utf8(old(out)@) + digit_text(digits@),
{
    let mut i: usize = 0;
    while i < digits.len()
        invariant
            i <= digits@.len(),
            forall|k: int| 0 <= k < digits@.len() ==> #[trigger] digits@[k] <= 9,
            encode_utf8(out@) == encode_utf8(old(out)@) + digit_text(digits@.subrange(0, i as int)),
        decreases digits@.len() - i,
    {
        append_digit(out, digits[i]);
        assert(encode_utf8(out@) =~= encode_utf8(old(out)@) + digit_text(
            digits@.subrange(0, i + 1),
        ));
        i += 1;
    }
    assert(digits@.subrange(0, i as int) == digits@);
}

/// Appends the text of a decimal to `out`.
fn append_decimal_number(out: &mut String, d: &Decimal)
    ensures
        encode_utf8(final(out)@) == encode_utf8(old(out)@) + decimal_number_text(d@),
{
    proof {
        lemma_punctuation();
    }
    if d.is_negative() {
        append_text(out, "-");
    }
    append_digits(out, d.integer_digits());
    append_text(out, ".");
    append_digits(out, d.fraction_digits());
    assert(encode_utf8(out@) =~= encode_utf8(old(out)@) + decimal_number_text(d@));
}

/// Appends the text of a number to `out`.
fn append_num(out: &mut String, n: &Num)
    ensures
        encode_utf8(final(out)@) == encode_utf8(old(out)@) + num_text(n@),
{
    proof {
        lemma_punctuation();
    }
    match n {
        Num::Int(i) => {
            if *i < 0 {
                append_text(out, "-");
                let magnitude: u64 = if *i == i64::MIN {
                    9223372036854775808
                } else {
                    (-*i) as u64
                };
                append_decimal(out, magnitude);
                assert(encode_utf8(out@) =~= encode_utf8(old(out)@) + num_text(n@));
            } else {
                append_decimal(out, *i as u64);
            }
        },
        Num::Float(d) => append_decimal_number(out, d),
    }
}

/// Appends the text of a string to `out`.
fn append_string(out: &mut String, s: &str)
    ensures
        encode_utf8(final(out)@) == encode_utf8(old(out)@) + string_text(s@),
{
    proof {
        lemma_punctuation();
    }
    append_text(out, "\"");
    append_text(out, s);
    append_text(out, "\"");
    assert(encode_utf8(out@) =~= encode_utf8(old(out)@) + string_text(s@));
}

/// Appends the text of a value to `out`.
fn append_value(out: &mut String, value: &JsonValue)
    ensures
        encode_utf8(final(out)@) == encode_utf8(old(out)@) + value_text(value@),
    decreases value, 0int,
{
    proof {
        lemma_punctuation();
    }
    match value {
        JsonValue::Null => append_text(out, "null"),
        JsonValue::Bool(b) => if *b {
            append_text(out, "true")
        } else {
            append_text(out, "false")
        },
        JsonValue::Number(n) => append_num(out, n),
        JsonValue::String(s) => append_string(out, s.as_str()),
        JsonValue::Array(items) => {
            append_text(out, "[");
            append_elements(out, items);
            append_text(out, "]");
            assert(encode_utf8(out@) =~= encode_utf8(old(out)@) + value_text(value@));
        },
        JsonValue::Object(members) => {
            append_text(out, "{");
            append_members(out, members);
            append_text(out, "}");
            assert(encode_utf8(out@) =~= encode_utf8(old(out)@) + value_text(value@));
        },
    }
}

/// Appends the texts of the elements of an array to `out`, with commas
/// between.
fn append_elements(out: &mut String, items: &Vec<JsonValue>)
    ensures
        encode_utf8(final(out)@) == encode_utf8(old(out)@) + elements_text(
            element_views(items@),
            0,
        ),
    decreases items, 1int,
{
    let ghost views = element_views(items@);
    let ghost whole = encode_utf8(out@) + elements_text(views, 0);
    proof {
        lemma_punctuation();
    }
    let mut i: usize = 0;
    while i < items.len()
        invariant
            views == element_views(items@),
            i <= items@.len(),
            ",".spec_bytes() == seq![COMMA],
            encode_utf8(out@) + separator(views.len(), i as int) + elements_text(views, i as int)
                == whole,
        decreases items@.len() - i,
    {
        let ghost before = encode_utf8(out@);
        let ghost sep = separator(views.len(), i as int);
        if i > 0 {
            append_text(out, ",");
        }
        append_value(out, &items[i]);
        proof {
            assert(encode_utf8(out@) == before + sep + value_text(views[i as int]));
            assert(encode_utf8(out@) + separator(views.len(), i + 1) + elements_text(
                views,
                i + 1,
            ) =~= before + sep + elements_text(views, i as int));
        }
        i += 1;
    }
    assert(encode_utf8(out@) =~= whole);
}

/// Appends the texts of the members of an object to `out`, with commas
/// between.
fn append_members(out: &mut String, members: &Vec<Member>)
    ensures
        encode_utf8(final(out)@) == encode_utf8(old(out)@) + members_text(
            member_views(members@),
            0,
        ),
    decreases members, 1int,
{
    let ghost views = member_views(members@);
    let ghost whole = encode_utf8(out@) + members_text(views, 0);
    proof {
        lemma_punctuation();
    }
    let mut i: usize = 0;
    while i < members.len()
        invariant
            views == member_views(members@),
            i <= members@.len(),
            ",".spec_bytes() == seq![COMMA],
            ":".spec_bytes() == seq![COLON],
            encode_utf8(out@) + separator(views.len(), i as int) + members_text(views, i as int)
                == whole,
        decreases members@.len() - i,
    {
        let ghost before = encode_utf8(out@);
        let ghost sep = separator(views.len(), i as int);
        if i > 0 {
            append_text(out, ",");
        }
        append_string(out, members[i].key.as_str());
        append_text(out, ":");
        append_value(out, &members[i].value);
        proof {
            assert(encode_utf8(out@) == before + sep + string_text(views[i as int].0) + seq![
                COLON,
            ] + value_text(views[i as int].1));
            assert(encode_utf8(out@) + separator(views.len(), i + 1) + members_text(
                views,
                i + 1,
            ) =~= before + sep + members_text(views, i as int));
        }
        i += 1;
    }
    assert(encode_utf8(out@) =~= whole);
}

impl Decimal {
    /// The literal in its written form: sign, digits, point, digits.
    pub fn to_text(&self) -> (text: String)
        ensures
            encode_utf8(text@) == decimal_number_text(self@),
    {
        let mut text = String::new();
        append_decimal_number(&mut text, self);
        assert(encode_utf8(text@) =~= decimal_number_text(self@));
        text
    }
}

impl JsonValue {
    /// The value as compact text.
    pub fn to_text(&self) -> (text: String)
        ensures
            encode_utf8(text@) == value_text(self@),
    {
        let mut text = String::new();
        append_value(&mut text, self);
        assert(encode_utf8(text@) =~= value_text(self@));
        text
    }
}

} // verus!
