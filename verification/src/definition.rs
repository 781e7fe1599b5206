//! The grammar of the definition files: a line that names a country and the
//! file that describes it, and the colour field of such a file.

use vstd::prelude::*;
use crate::color::Color;
use crate::text::{
    chars_of, find, find_char, first_index_of, first_occurrence, lemma_first_index_of,
    lemma_first_occurrence, texts,
};

verus! {

/// Why a definition could not be read.
#[derive(Debug, Clone, Copy, PartialEq, Eq, Structural)]
pub enum ParseError {
    /// The line does not begin with a tag of three bytes.
    MissingTag,
    /// The line holds no path between double quotes.
    MissingPath,
    /// The country file holds no colour of three channels.
    MissingColor,
    /// There is not one country file for each definition.
    MissingCountryFile,
}

/// The number of bytes that UTF-8 takes for `c`.
pub open spec fn utf8_width(c: char) -> nat {
    if c as u32 <= 0x7f {
        1
    } else if c as u32 <= 0x7ff {
        2
    } else if c as u32 <= 0xffff {
        3
    } else {
        4
    }
}

/// The position behind the characters that, from position `from` on, take
/// exactly `bytes` bytes of UTF-8; none where no character ends there.
pub open spec fn end_of_bytes(text: Seq<char>, from: int, bytes: nat) -> Option<int>
    decreases bytes,
{
    if bytes == 0 {
        Some(from)
    } else if from < 0 || from >= text.len() || utf8_width(text[from]) > bytes {
        None
    } else {
        end_of_bytes(text, from + 1, (bytes - utf8_width(text[from])) as nat)
    }
}

/// Where the tag of a definition line ends: the tag is the first three bytes
/// of the line.
pub open spec fn tag_end(line: Seq<char>) -> Option<int> {
    end_of_bytes(line, 0, 3)
}

/// Where the path of a definition line begins and ends. The path begins
/// behind the first double quote and ends before the next one; its first
/// character is not looked at, and has to be one byte wide.
pub open spec fn path_range(line: Seq<char>) -> Option<(int, int)> {
    match first_index_of(line, '"', 0) {
        None => None,
        Some(open) => if open + 1 >= line.len() || utf8_width(line[open + 1]) != 1 {
            None
        } else {
            match first_index_of(line, '"', open + 2) {
                None => None,
                Some(close) => Some((open + 1, close)),
            }
        },
    }
}

/// Whether `c` is white space: a character with the Unicode property
/// `White_Space`.
pub open spec fn is_whitespace(c: char) -> bool {
    let n = c as u32;
    (0x09 <= n <= 0x0d) || n == 0x20 || n == 0x85 || n == 0xa0 || n == 0x1680 || (0x2000 <= n
        <= 0x200a) || n == 0x2028 || n == 0x2029 || n == 0x202f || n == 0x205f || n == 0x3000
}

/// Whether `c` is one of the digits `0` to `9`.
pub open spec fn is_digit(c: char) -> bool {
    '0' <= c <= '9'
}

/// The number that a string of digits stands for.
pub open spec fn digits_value(digits: Seq<char>) -> nat
    decreases digits.len(),
{
    if digits.len() == 0 {
        0
    } else {
        digits_value(digits.drop_last()) * 10 + (digits.last() as u32 - '0' as u32) as nat
    }
}

/// Whether every character of `s` is a digit.
pub open spec fn all_digits(s: Seq<char>) -> bool {
    forall|i: int| 0 <= i < s.len() ==> is_digit(#[trigger] s[i])
}

/// `token` without the plus sign that it may begin with.
pub open spec fn unsigned_part(token: Seq<char>) -> Seq<char> {
    if token.len() > 0 && token[0] == '+' {
        token.subrange(1, token.len() as int)
    } else {
        token
    }
}

/// The byte that `token` is the numeral of: digits, which a plus sign may
/// precede, whose value is at most 255.
pub open spec fn byte_of_token(token: Seq<char>) -> Option<u8> {
    let digits = unsigned_part(token);
    if digits.len() > 0 && all_digits(digits) && digits_value(digits) <= 255 {
        Some(digits_value(digits) as u8)
    } else {
        None
    }
}

/// The first position at or after `from` that holds white space, or the
/// length of `text` where there is none.
pub open spec fn token_end(text: Seq<char>, from: int) -> int
    decreases text.len() - from,
{
    if from < 0 || from >= text.len() || is_whitespace(text[from]) {
        from
    } else {
        token_end(text, from + 1)
    }
}

/// The bytes that the tokens of `text` from position `from` on are numerals
/// of. Tokens are the stretches between white space; a token that is no
/// numeral of a byte is passed over.
pub open spec fn bytes_from(text: Seq<char>, from: int) -> Seq<u8>
    decreases text.len() - from,
{
    if from < 0 || from >= text.len() {
        Seq::empty()
    } else if is_whitespace(text[from]) {
        bytes_from(text, from + 1)
    } else {
        proof {
            lemma_token_end(text, from);
        }
        let end = token_end(text, from);
        match byte_of_token(text.subrange(from, end)) {
            Some(b) => seq![b] + bytes_from(text, end),
            None => bytes_from(text, end),
        }
    }
}

/// The colour that a country file gives: behind the first `color` comes an
/// opening brace, behind that a closing brace, and the first three numerals
/// between the two are the channels. The opening brace belongs to the token
/// that begins with it, so that a numeral has to be set off from it by white
/// space.
pub open spec fn color_of(content: Seq<char>) -> Option<Color> {
    match first_occurrence(content, "color"@, 0) {
        None => None,
        Some(word) => match first_index_of(content, '{', word) {
            None => None,
            Some(open) => match first_index_of(content, '}', open) {
                None => None,
                Some(close) => {
                    let channels = bytes_from(content.subrange(open, close), 0);
                    if channels.len() >= 3 {
                        Some((channels[0], channels[1], channels[2]))
                    } else {
                        None
                    }
                },
            },
        },
    }
}

/// A token ends behind its beginning and within the text.
pub proof fn lemma_token_end(text: Seq<char>, from: int)
    requires
        0 <= from <= text.len(),
    ensures
        from <= token_end(text, from) <= text.len(),
        from < text.len() && !is_whitespace(text[from]) ==> from < token_end(text, from),
    decreases text.len() - from,
{
    if from < text.len() && !is_whitespace(text[from]) {
        lemma_token_end(text, from + 1);
    }
}

/// Computes the number of bytes that UTF-8 takes for `c`.
pub fn width_of(c: char) -> (w: usize)
    ensures
        w == utf8_width(c),
{
    let n = c as u32;
    if n <= 0x7f {
        1
    } else if n <= 0x7ff {
        2
    } else if n <= 0xffff {
        3
    } else {
        4
    }
}

/// Tells whether `c` is white space.
pub fn whitespace(c: char) -> (w: bool)
    ensures
        w == is_whitespace(c),
{
    let n = c as u32;
    (0x09 <= n && n <= 0x0d) || n == 0x20 || n == 0x85 || n == 0xa0 || n == 0x1680 || (0x2000 <= n
        && n <= 0x200a) || n == 0x2028 || n == 0x2029 || n == 0x202f || n == 0x205f || n
        == 0x3000
}

/// Finds where the tag of a definition line ends.
pub fn find_tag_end(line: &[char]) -> (end: Option<usize>)
    ensures
        match end {
            Some(e) => tag_end(line@) == Some(e as int) && e <= line@.len(),
            None => tag_end(line@) is None,
        },
{
    let mut at: usize = 0;
    let mut left: usize = 3;
    while left > 0
        invariant
            at <= line@.len(),
            left <= 3,
            tag_end(line@) == end_of_bytes(line@, at as int, left as nat),
        decreases left,
    {
        if at >= line.len() {
            return None;
        }
        let w = width_of(line[at]);
        if w > left {
            return None;
        }
        left -= w;
        at += 1;
    }
    Some(at)
}

/// Finds where the path of a definition line begins and ends.
pub fn find_path_range(line: &[char]) -> (range: Option<(usize, usize)>)
    ensures
        match range {
            Some((from, to)) => path_range(line@) == Some((from as int, to as int)) && from <= to
                <= line@.len(),
            None => path_range(line@) is None,
        },
{
    let len = line.len();
    let open = match find_char(line, '"', 0) {
        Some(open) => open,
        None => {
            return None;
        },
    };
    proof {
        lemma_first_index_of(line@, '"', 0);
    }
    if open + 1 >= len || width_of(line[open + 1]) != 1 {
        return None;
    }
    proof {
        lemma_first_index_of(line@, '"', open as int + 2);
    }
    match find_char(line, '"', open + 2) {
        Some(close) => Some((open + 1, close)),
        None => None,
    }
}

/// Reads `token` as the numeral of a byte.
pub fn parse_byte(token: &[char]) -> (byte: Option<u8>)
    ensures
        byte == byte_of_token(token@),
{
    let len = token.len();
    let start: usize = if len > 0 && token[0] == '+' {
        1
    } else {
        0
    };
    let ghost digits = unsigned_part(token@);
    assert(digits =~= token@.subrange(start as int, len as int));
    if start >= len {
        return None;
    }
    let mut value: u32 = 0;
    let mut i: usize = start;
    while i < len
        invariant
            start <= i <= len,
            len == token@.len(),
            digits == token@.subrange(start as int, len as int),
            digits == unsigned_part(token@),
            forall|j: int| 0 <= j < i - start ==> is_digit(#[trigger] digits[j]),
            value <= 256,
            value == if digits_value(digits.take(i - start)) <= 255 {
                digits_value(digits.take(i - start))
            } else {
                256
            },
        decreases len - i,
    {
        let c = token[i];
        if !('0' <= c && c <= '9') {
            assert(!is_digit(digits[i - start]));
            return None;
        }
        let d = c as u32 - '0' as u32;
        proof {
            let longer = digits.take(i - start + 1);
            assert(longer.drop_last() =~= digits.take(i - start));
            assert(longer.last() == c);
        }
        value = value * 10 + d;
        if value > 255 {
            value = 256;
        }
        i += 1;
    }
    proof {
        assert(digits.take(len - start) =~= digits);
    }
    if value > 255 {
        None
    } else {
        Some(value as u8)
    }
}

/// Lists the bytes that the tokens of `text` are numerals of.
pub fn parse_bytes(text: &[char]) -> (bytes: Vec<u8>)
    ensures
        bytes@ == bytes_from(text@, 0),
{
    let len = text.len();
    let mut bytes: Vec<u8> = Vec::new();
    let mut at: usize = 0;
    while at < len
        invariant
            at <= len,
            len == text@.len(),
            bytes@ + bytes_from(text@, at as int) == bytes_from(text@, 0),
        decreases len - at,
    {
        if whitespace(text[at]) {
            at += 1;
        } else {
            let mut end: usize = at + 1;
            while end < len && !whitespace(text[end])
                invariant
                    at < end <= len,
                    len == text@.len(),
                    token_end(text@, at as int) == token_end(text@, end as int),
                decreases len - end,
            {
                end += 1;
            }
            let mut token: Vec<char> = Vec::new();
            let mut i: usize = at;
            while i < end
                invariant
                    at <= i <= end <= len,
                    len == text@.len(),
                    token@ == text@.subrange(at as int, i as int),
                decreases end - i,
            {
                token.push(text[i]);
                assert(text@.subrange(at as int, i as int + 1) == text@.subrange(
                    at as int,
                    i as int,
                ).push(text@[i as int]));
                i += 1;
            }
            let ghost before = bytes@;
            match parse_byte(token.as_slice()) {
                Some(b) => {
                    bytes.push(b);
                    assert(bytes@ + bytes_from(text@, end as int) =~= before + (seq![b]
                        + bytes_from(text@, end as int)));
                },
                None => {},
            }
            at = end;
        }
    }
    assert(bytes@ + bytes_from(text@, at as int) =~= bytes@);
    bytes
}

/// Reads the colour that a country file gives.
pub fn parse_color(content: &[char]) -> (color: Option<Color>)
    ensures
        color == color_of(content@),
{
    let word = chars_of("color");
    let start = match find(content, word.as_slice(), 0) {
        Some(start) => start,
        None => {
            return None;
        },
    };
    let open = match find_char(content, '{', start) {
        Some(open) => open,
        None => {
            return None;
        },
    };
    proof {
        lemma_first_index_of(content@, '{', start as int);
        lemma_first_occurrence(content@, "color"@, 0);
    }
    let close = match find_char(content, '}', open) {
        Some(close) => close,
        None => {
            return None;
        },
    };
    proof {
        lemma_first_index_of(content@, '}', open as int);
    }
    let mut inner: Vec<char> = Vec::new();
    let mut i: usize = open;
    while i < close
        invariant
            open <= i <= close <= content@.len(),
            inner@ == content@.subrange(open as int, i as int),
        decreases close - i,
    {
        inner.push(content[i]);
        assert(content@.subrange(open as int, i as int + 1) == content@.subrange(
            open as int,
            i as int,
        ).push(content@[i as int]));
        i += 1;
    }
    let channels = parse_bytes(inner.as_slice());
    if channels.len() >= 3 {
        Some((channels[0], channels[1], channels[2]))
    } else {
        None
    }
}

/// `line` without the carriage return that it may end with.
pub open spec fn strip_cr(line: Seq<char>) -> Seq<char> {
    if line.len() > 0 && line.last() == '\r' {
        line.drop_last()
    } else {
        line
    }
}

/// Whether `line` defines a country: it holds an equals sign and does not
/// begin with a number sign.
pub open spec fn is_definition(line: Seq<char>) -> bool {
    first_index_of(line, '=', 0) is Some && !(line.len() > 0 && line[0] == '#')
}

/// `line` where it defines a country, and nothing where it does not.
pub open spec fn definition_or_nothing(line: Seq<char>) -> Seq<Seq<char>> {
    if is_definition(line) {
        seq![line]
    } else {
        Seq::empty()
    }
}

/// The lines of `text` from position `from` on that define a country. A line
/// ends at a line feed, or at the end of the text; a carriage return before
/// the line feed is not part of the line.
pub open spec fn definitions_from(text: Seq<char>, from: int) -> Seq<Seq<char>>
    decreases text.len() - from,
{
    if from < 0 || from >= text.len() {
        Seq::empty()
    } else {
        match first_index_of(text, '\n', from) {
            None => definition_or_nothing(text.subrange(from, text.len() as int)),
            Some(feed) => {
                proof {
                    lemma_first_index_of(text, '\n', from);
                }
                definition_or_nothing(strip_cr(text.subrange(from, feed))) + definitions_from(
                    text,
                    feed + 1,
                )
            },
        }
    }
}

/// The tag and the path of a definition line.
pub open spec fn heading_of(line: Seq<char>) -> Result<(Seq<char>, Seq<char>), ParseError> {
    match tag_end(line) {
        None => Err(ParseError::MissingTag),
        Some(end) => match path_range(line) {
            None => Err(ParseError::MissingPath),
            Some((from, to)) => Ok((line.subrange(0, end), line.subrange(from, to))),
        },
    }
}

/// Tells whether `line` defines a country.
pub fn defines_country(line: &[char]) -> (defines: bool)
    ensures
        defines == is_definition(line@),
{
    if line.len() > 0 && line[0] == '#' {
        return false;
    }
    find_char(line, '=', 0).is_some()
}

/// Lists the lines of `text` that define a country.
pub fn definition_lines(text: &str) -> (lines: Vec<String>)
    ensures
        texts(lines@) == definitions_from(text@, 0),
{
    let chars = chars_of(text);
    let len = chars.len();
    let mut lines: Vec<String> = Vec::new();
    let mut from: usize = 0;
    while from < len
        invariant
            from <= len,
            chars@ == text@,
            len == chars@.len(),
            texts(lines@) + definitions_from(text@, from as int) == definitions_from(text@, 0),
        decreases len - from,
    {
        let feed = find_char(chars.as_slice(), '\n', from);
        proof {
            lemma_first_index_of(chars@, '\n', from as int);
        }
        let (end, next) = match feed {
            None => (len, len),
            Some(feed) => {
                if feed > from && chars[feed - 1] == '\r' {
                    (feed - 1, feed + 1)
                } else {
                    (feed, feed + 1)
                }
            },
        };
        let ghost line = text@.subrange(from as int, end as int);
        proof {
            match feed {
                None => {},
                Some(feed) => {
                    let whole = text@.subrange(from as int, feed as int);
                    if feed > from && chars@[feed - 1] == '\r' {
                        assert(whole.last() == '\r');
                        assert(whole.drop_last() =~= line);
                    } else {
                        assert(strip_cr(whole) == line);
                    }
                },
            }
        }
        let mut copy: Vec<char> = Vec::new();
        let mut i: usize = from;
        while i < end
            invariant
                from <= i <= end <= len,
                len == chars@.len(),
                copy@ == chars@.subrange(from as int, i as int),
            decreases end - i,
        {
            copy.push(chars[i]);
            assert(chars@.subrange(from as int, i as int + 1) == chars@.subrange(
                from as int,
                i as int,
            ).push(chars@[i as int]));
            i += 1;
        }
        let ghost before = lines@;
        if defines_country(copy.as_slice()) {
            lines.push(text.substring_char(from, end).to_owned());
            assert(texts(lines@) =~= texts(before) + seq![line]);
        }
        proof {
            assert(texts(lines@) =~= texts(before) + definition_or_nothing(line));
            assert(texts(lines@) + definitions_from(text@, next as int) =~= texts(before) + (
            definition_or_nothing(line) + definitions_from(text@, next as int)));
        }
        from = next;
    }
    assert(texts(lines@) + definitions_from(text@, from as int) =~= texts(lines@));
    lines
}

} // verus!
