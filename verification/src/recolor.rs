//! Rewrites the colour of a country file: the stretch from the word `color`
//! to the next closing brace gives way to a field with the new colour.

use vstd::prelude::*;
use std::ops::Range;
use crate::color::Color;
use crate::latin1::{
    decode_latin1, encode_latin1, is_latin1, latin1_bytes, latin1_text, lemma_latin1_round_trip,
};
use crate::text::{
    chars_of, find, find_char, first_index_of, first_occurrence, lemma_first_index_of,
    lemma_first_occurrence,
};

verus! {

/// Why a country file could not be given a new colour.
#[derive(Debug, Clone, Copy, PartialEq, Eq, Structural)]
pub enum RecolorError {
    /// The file has no word `color` with a closing brace behind it.
    NoColorField,
}

/// The decimal digit for a number below ten.
pub open spec fn digit(d: nat) -> char {
    (48 + d) as char
}

/// The decimal numeral of `n`, without sign or leading zeros.
pub open spec fn decimal(n: nat) -> Seq<char>
    decreases n,
{
    if n < 10 {
        seq![digit(n)]
    } else {
        decimal(n / 10).push(digit(n % 10))
    }
}

/// The text of a colour field: `color = { R G B }`, the channels in decimal.
pub open spec fn color_field_text(color: Color) -> Seq<char> {
    "color = { "@ + decimal(color.0 as nat) + " "@ + decimal(color.1 as nat) + " "@ + decimal(
        color.2 as nat,
    ) + " }"@
}

/// The stretch of `text` that holds its colour: from the first `color` to
/// just behind the first closing brace that follows.
pub open spec fn color_range(text: Seq<char>) -> Option<(int, int)> {
    match first_occurrence(text, "color"@, 0) {
        None => None,
        Some(start) => match first_index_of(text, '}', start) {
            None => None,
            Some(brace) => Some((start, brace + 1)),
        },
    }
}

/// `text` with its colour stretch replaced by the field for `color`.
pub open spec fn recolored_text(text: Seq<char>, color: Color) -> Option<Seq<char>> {
    match color_range(text) {
        None => None,
        Some((start, end)) => Some(
            text.subrange(0, start) + color_field_text(color) + text.subrange(
                end,
                text.len() as int,
            ),
        ),
    }
}

/// The colour stretch lies within the text and is not empty.
pub proof fn lemma_color_range_within(text: Seq<char>)
    ensures
        color_range(text) matches Some((start, end)) ==> 0 <= start < end <= text.len(),
{
    lemma_first_occurrence(text, "color"@, 0);
    if let Some(start) = first_occurrence(text, "color"@, 0) {
        lemma_first_index_of(text, '}', start);
    }
}

/// A numeral of a byte has one to three digits, all of them ASCII.
pub proof fn lemma_decimal_of_byte(n: nat)
    requires
        n <= 255,
    ensures
        1 <= decimal(n).len() <= 3,
        is_latin1(decimal(n)),
{
    reveal_with_fuel(decimal, 3);
}

/// A colour field can be written in ISO-8859-1.
pub proof fn lemma_color_field_is_latin1(color: Color)
    ensures
        is_latin1(color_field_text(color)),
{
    reveal_strlit("color = { ");
    reveal_strlit(" ");
    reveal_strlit(" }");
    lemma_decimal_of_byte(color.0 as nat);
    lemma_decimal_of_byte(color.1 as nat);
    lemma_decimal_of_byte(color.2 as nat);
}

/// Appends `more` to `text`.
fn append(text: &mut Vec<char>, more: &[char])
    ensures
        final(text)@ == old(text)@ + more@,
{
    let mut i: usize = 0;
    while i < more.len()
        invariant
            i <= more@.len(),
            text@ == old(text)@ + more@.take(i as int),
        decreases more.len() - i,
    {
        text.push(more[i]);
        assert(more@.take(i as int + 1) == more@.take(i as int).push(more@[i as int]));
        i += 1;
    }
    assert(more@.take(i as int) == more@);
}

/// Appends the decimal numeral of `n` to `text`.
fn append_decimal(text: &mut Vec<char>, n: u8)
    ensures
        final(text)@ == old(text)@ + decimal(n as nat),
{
    reveal_with_fuel(decimal, 3);
    if n >= 100 {
        text.push((48 + n / 100) as char);
    }
    if n >= 10 {
        text.push((48 + (n / 10) % 10) as char);
    }
    text.push((48 + n % 10) as char);
    assert(text@ =~= old(text)@ + decimal(n as nat));
}

/// Writes the colour field for `color`.
pub fn color_field(color: &Color) -> (field: Vec<char>)
    ensures
        field@ == color_field_text(*color),
{
    let mut field = chars_of("color = { ");
    append_decimal(&mut field, color.0);
    append(&mut field, chars_of(" ").as_slice());
    append_decimal(&mut field, color.1);
    append(&mut field, chars_of(" ").as_slice());
    append_decimal(&mut field, color.2);
    append(&mut field, chars_of(" }").as_slice());
    field
}

/// Finds the stretch of `input` that holds the colour.
pub fn get_color_range_in_file(input: &[char]) -> (range: Option<Range<usize>>)
    ensures
        match range {
            Some(r) => color_range(input@) == Some((r.start as int, r.end as int)),
            None => color_range(input@) is None,
        },
{
    let word = chars_of("color");
    let start = match find(input, word.as_slice(), 0) {
        Some(start) => start,
        None => {
            return None;
        },
    };
    let len = input.len();
    proof {
        lemma_first_index_of(input@, '}', start as int);
    }
    match find_char(input, '}', start) {
        Some(brace) => {
            assert(brace < len);
            Some(start..brace + 1)
        },
        None => None,
    }
}

/// Replaces the colour stretch of `text` by the field for `color`.
pub fn recolor_text(text: &[char], color: &Color) -> (out: Option<Vec<char>>)
    ensures
        match out {
            Some(new_text) => recolored_text(text@, *color) == Some(new_text@),
            None => recolored_text(text@, *color) is None,
        },
{
    let range = match get_color_range_in_file(text) {
        Some(range) => range,
        None => {
            return None;
        },
    };
    proof {
        lemma_color_range_within(text@);
    }
    let mut new_text: Vec<char> = Vec::new();
    let mut i: usize = 0;
    while i < range.start
        invariant
            i <= range.start <= text@.len(),
            new_text@ == text@.subrange(0, i as int),
        decreases range.start - i,
    {
        new_text.push(text[i]);
        assert(text@.subrange(0, i as int + 1) == text@.subrange(0, i as int).push(text@[i as int]));
        i += 1;
    }
    let field = color_field(color);
    append(&mut new_text, field.as_slice());
    let ghost head = new_text@;
    let mut j: usize = range.end;
    while j < text.len()
        invariant
            range.end <= j <= text@.len(),
            new_text@ == head + text@.subrange(range.end as int, j as int),
        decreases text.len() - j,
    {
        new_text.push(text[j]);
        assert(text@.subrange(range.end as int, j as int + 1) == text@.subrange(
            range.end as int,
            j as int,
        ).push(text@[j as int]));
        j += 1;
    }
    Some(new_text)
}

/// Gives a country file a new colour. The file is read as ISO-8859-1, its
/// colour stretch gives way to the field for `color`, and the result is
/// written as ISO-8859-1 again: the bytes before and behind the stretch stay
/// as they are.
pub fn recolor(file: &[u8], color: &Color) -> (outcome: Result<Vec<u8>, RecolorError>)
    ensures
        match outcome {
            Ok(bytes) => color_range(latin1_text(file@)) matches Some((start, end)) && bytes@
                == file@.subrange(0, start) + latin1_bytes(color_field_text(*color))
                + file@.subrange(end, file@.len() as int),
            Err(e) => e == RecolorError::NoColorField && color_range(latin1_text(file@)) is None,
        },
{
    let text = match decode_latin1(file) {
        Some(text) => text,
        None => {
            proof {
                assert(false);
            }
            return Err(RecolorError::NoColorField);
        },
    };
    let new_text = match recolor_text(text.as_slice(), color) {
        Some(new_text) => new_text,
        None => {
            return Err(RecolorError::NoColorField);
        },
    };
    proof {
        lemma_color_range_within(text@);
        lemma_latin1_round_trip(file@);
        lemma_color_field_is_latin1(*color);
    }
    match encode_latin1(new_text.as_slice()) {
        Some(bytes) => {
            proof {
                let (start, end) = color_range(text@)->0;
                assert(bytes@ =~= file@.subrange(0, start) + latin1_bytes(color_field_text(*color))
                    + file@.subrange(end, file@.len() as int));
            }
            Ok(bytes)
        },
        None => {
            proof {
                assert(false);
            }
            Err(RecolorError::NoColorField)
        },
    }
}

} // verus!
