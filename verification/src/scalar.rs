//! The parsers of the four scalars: null, booleans, numbers and strings.

use crate::cursor::Cursor;
use crate::error::{ErrorKind, Failure, ParseError};
use crate::grammar::{
    decimal_value, digit_values, parse_bool_spec, parse_null_spec, parse_num_spec,
    parse_string_spec, MINUS, POINT, QUOTE,
};
use crate::lexical::{is_digit, lemma_digits_end, lemma_find};
use crate::text::lemma_punctuation;
use crate::value::{well_formed, Decimal, Num, NumView, ValueView};
use crate::wellformed::{lemma_parsed_num, lemma_parsed_string};
use vstd::prelude::*;
use vstd::string::*;
use vstd::utf8::*;

verus! {

/// A longer prefix of a digit sequence denotes no smaller a number.
pub proof fn lemma_decimal_value_grows(digits: Seq<u8>, n: int)
    requires
        0 <= n <= digits.len(),
    ensures
        decimal_value(digits.subrange(0, n)) <= decimal_value(digits),
    decreases digits.len() - n,
{
    if n == digits.len() {
        assert(digits.subrange(0, n) == digits);
    } else {
        assert(digits.drop_last().subrange(0, n) == digits.subrange(0, n));
        lemma_decimal_value_grows(digits.drop_last(), n);
    }
}

/// The digits of a run of ASCII digits, as values.
fn digits_of(run: &str) -> (digits: Vec<u8>)
    requires
        forall|i: int| 0 <= i < run.spec_bytes().len() ==> is_digit(#[trigger] run.spec_bytes()[i]),
    ensures
        digits@ == digit_values(run.spec_bytes()),
{
    let bytes = run.as_bytes();
    let mut digits: Vec<u8> = Vec::with_capacity(bytes.len());
    let mut i: usize = 0;
    while i < bytes.len()
        invariant
            bytes@ == run.spec_bytes(),
            forall|k: int| 0 <= k < bytes@.len() ==> is_digit(#[trigger] bytes@[k]),
            i <= bytes@.len(),
            digits@ == digit_values(bytes@.subrange(0, i as int)),
        decreases bytes@.len() - i,
    {
        digits.push(bytes[i] - 0x30);
        assert(digits@ == digit_values(bytes@.subrange(0, i + 1)));
        i += 1;
    }
    assert(bytes@.subrange(0, i as int) == bytes@);
    digits
}

/// The number that a run of ASCII digits denotes, if it is at most
/// `i64::MAX`.
fn magnitude_of(run: &str) -> (magnitude: Option<i64>)
    requires
        forall|i: int| 0 <= i < run.spec_bytes().len() ==> is_digit(#[trigger] run.spec_bytes()[i]),
    ensures
        match magnitude {
            Some(m) => m == decimal_value(digit_values(run.spec_bytes())),
            None => decimal_value(digit_values(run.spec_bytes())) > i64::MAX,
        },
{
    let bytes = run.as_bytes();
    let ghost values = digit_values(bytes@);
    let mut total: i64 = 0;
    let mut i: usize = 0;
    while i < bytes.len()
        invariant
            bytes@ == run.spec_bytes(),
            values == digit_values(bytes@),
            forall|k: int| 0 <= k < bytes@.len() ==> is_digit(#[trigger] bytes@[k]),
            i <= bytes@.len(),
            0 <= total,
            total == decimal_value(values.subrange(0, i as int)),
        decreases bytes@.len() - i,
    {
        let digit: i64 = (bytes[i] - 0x30) as i64;
        proof {
            let longer = values.subrange(0, i + 1);
            assert(longer.drop_last() == values.subrange(0, i as int));
            assert(longer.last() == digit);
            assert(decimal_value(longer) == 10 * total + digit);
            lemma_decimal_value_grows(values, i + 1);
        }
        if total > (i64::MAX - digit) / 10 {
            return None;
        }
        total = total * 10 + digit;
        i += 1;
    }
    assert(values.subrange(0, i as int) == values);
    Some(total)
}

/// Parses `null`.
pub fn parse_null(cursor: &mut Cursor) -> (outcome: Result<(), ParseError>)
    ensures
        final(cursor).input() == old(cursor).input(),
        match outcome {
            Ok(()) => {
                &&& parse_null_spec(old(cursor).input(), old(cursor).offset()) matches Ok((_, taken))
                &&& final(cursor).offset() == old(cursor).offset() + taken
            },
            Err(e) => {
                &&& parse_null_spec(old(cursor).input(), old(cursor).offset()) == Err::<
                    ((), nat),
                    Failure,
                >(e@)
                &&& final(cursor).offset() == old(cursor).offset()
            },
        },
{
    cursor.matches("null")
}

/// Parses `true` or `false`.
pub fn parse_bool(cursor: &mut Cursor) -> (outcome: Result<bool, ParseError>)
    ensures
        final(cursor).input() == old(cursor).input(),
        match outcome {
            Ok(b) => {
                &&& parse_bool_spec(old(cursor).input(), old(cursor).offset()) matches Ok(
                    (value, taken),
                )
                &&& b == value
                &&& final(cursor).offset() == old(cursor).offset() + taken
            },
            Err(e) => {
                &&& parse_bool_spec(old(cursor).input(), old(cursor).offset()) == Err::<
                    (bool, nat),
                    Failure,
                >(e@)
                &&& final(cursor).offset() == old(cursor).offset()
            },
        },
{
    match cursor.matches("true") {
        Ok(()) => Ok(true),
        Err(_) => match cursor.matches("false") {
            Ok(()) => Ok(false),
            Err(e) => Err(e),
        },
    }
}

/// Parses a number: an integer, or a decimal where the literal has a point.
pub fn parse_num(cursor: &mut Cursor) -> (outcome: Result<Num, ParseError>)
    ensures
        final(cursor).input() == old(cursor).input(),
        match outcome {
            Ok(n) => {
                &&& parse_num_spec(old(cursor).input(), old(cursor).offset()) matches Ok(
                    (value, taken),
                )
                &&& n@ == value
                &&& final(cursor).offset() == old(cursor).offset() + taken
                &&& well_formed(ValueView::Number(n@), 0)
            },
            Err(e) => {
                &&& parse_num_spec(old(cursor).input(), old(cursor).offset()) == Err::<
                    (NumView, nat),
                    Failure,
                >(e@)
                &&& final(cursor).offset() == old(cursor).offset()
            },
        },
{
    let start = *cursor;
    let pos = cursor.position();
    proof {
        lemma_parsed_num(cursor.input(), pos as int);
    }
    let negative = cursor.expect(MINUS).is_ok();
    proof {
        lemma_digits_end(cursor.input(), cursor.offset());
    }
    let integer = match cursor.take_digits() {
        Ok(run) => run,
        Err(e) => {
            *cursor = start;
            return Err(e);
        },
    };
    if cursor.expect(POINT).is_ok() {
        proof {
            lemma_digits_end(cursor.input(), cursor.offset());
        }
        match cursor.take_digits() {
            Ok(fraction) => {
                let decimal = Decimal::new(negative, digits_of(integer), digits_of(fraction));
                Ok(Num::Float(decimal.unwrap()))
            },
            Err(e) => {
                *cursor = start;
                Err(e)
            },
        }
    } else {
        match magnitude_of(integer) {
            Some(magnitude) => Ok(
                Num::Int(
                    if negative {
                        -magnitude
                    } else {
                        magnitude
                    },
                ),
            ),
            None => {
                *cursor = start;
                Err(ParseError::new(ErrorKind::NumberOutOfRange, pos))
            },
        }
    }
}

/// Parses a quoted string and returns what stands between the quotes.
pub fn parse_string(cursor: &mut Cursor) -> (outcome: Result<String, ParseError>)
    ensures
        final(cursor).input() == old(cursor).input(),
        match outcome {
            Ok(s) => {
                &&& parse_string_spec(old(cursor).input(), old(cursor).offset()) matches Ok(
                    (value, taken),
                )
                &&& s@ == value
                &&& final(cursor).offset() == old(cursor).offset() + taken
                &&& !s@.contains('"')
            },
            Err(e) => {
                &&& parse_string_spec(old(cursor).input(), old(cursor).offset()) == Err::<
                    (Seq<char>, nat),
                    Failure,
                >(e@)
                &&& final(cursor).offset() == old(cursor).offset()
            },
        },
{
    broadcast use encode_utf8_decode_utf8;

    let start = *cursor;
    let pos = cursor.position();
    proof {
        lemma_parsed_string(cursor.input(), pos as int);
    }
    cursor.expect(QUOTE)?;
    proof {
        lemma_punctuation();
    }
    match cursor.take_until("\"") {
        Ok(content) => {
            proof {
                let close = cursor.offset();
                lemma_find(cursor.input(), pos + 1, seq![QUOTE]);
                assert(cursor.input().subrange(close, close + 1)[0] == QUOTE);
            }
            let closed = cursor.expect(QUOTE);
            assert(closed is Ok);
            Ok(content.to_owned())
        },
        Err(_) => {
            *cursor = start;
            Err(ParseError::new(ErrorKind::UnterminatedString, pos))
        },
    }
}

} // verus!
