//! Lines of the emoji charts.
//!
//! A line of the emoji list holds the code points of one emoji in
//! hexadecimal with a space between each two, a tab, and the description. A
//! line of the ordering file holds code points written as `U+` and
//! hexadecimal digits, with white space between them, before the first `;`;
//! what follows a `#` is a comment.

use vstd::prelude::*;
use vstd::string::StrSliceExecFns;
use crate::text::{
    char_from_u32, chars_of, find, hex_number, index_of, is_scalar, only, parse_hex, parts_view,
    pieces, slice_of, split, split_whitespace, string_of, words,
};

verus! {

/// Why a line of an emoji chart cannot be read.
#[derive(Debug, PartialEq, Eq)]
pub enum ParseError {
    /// The line holds no tab.
    NoTab,
    /// The text is no hexadecimal number that fits 32 bits.
    NotHex(String),
    /// The number is no scalar value.
    NotScalar(u32),
    /// The text does not start with `U+`.
    NoPrefix(String),
    /// The line names no code point.
    Empty,
}

/// The mathematical value of a [`ParseError`].
pub ghost enum ParseErrorSpec {
    NoTab,
    NotHex(Seq<char>),
    NotScalar(u32),
    NoPrefix(Seq<char>),
    Empty,
}

impl View for ParseError {
    type V = ParseErrorSpec;

    open spec fn view(&self) -> ParseErrorSpec {
        match self {
            ParseError::NoTab => ParseErrorSpec::NoTab,
            ParseError::NotHex(text) => ParseErrorSpec::NotHex(text@),
            ParseError::NotScalar(value) => ParseErrorSpec::NotScalar(*value),
            ParseError::NoPrefix(text) => ParseErrorSpec::NoPrefix(text@),
            ParseError::Empty => ParseErrorSpec::Empty,
        }
    }
}

/// The mathematical value of what reading a character may give.
pub open spec fn scalar_view(read: Result<char, ParseError>) -> Result<char, ParseErrorSpec> {
    match read {
        Ok(c) => Ok(c),
        Err(error) => Err(error@),
    }
}

/// The character that `text` names by its code point in hexadecimal.
pub open spec fn scalar_value(text: Seq<char>) -> Result<char, ParseErrorSpec> {
    match hex_number(text) {
        None => Err(ParseErrorSpec::NotHex(text)),
        Some(value) => if is_scalar(value) {
            Ok(value as char)
        } else {
            Err(ParseErrorSpec::NotScalar(value))
        },
    }
}

/// The characters that `names` name, each by its code point in hexadecimal,
/// or what is wrong with the first name that names none.
pub open spec fn scalar_values(names: Seq<Seq<char>>) -> Result<Seq<char>, ParseErrorSpec>
    decreases names.len(),
{
    if names.len() == 0 {
        Ok(Seq::empty())
    } else {
        match scalar_values(names.drop_last()) {
            Err(error) => Err(error),
            Ok(value) => match scalar_value(names.last()) {
                Err(error) => Err(error),
                Ok(c) => Ok(value.push(c)),
            },
        }
    }
}

/// A code point of the ordering file without its `U+`.
pub open spec fn unprefixed(name: Seq<char>) -> Result<Seq<char>, ParseErrorSpec> {
    if name.len() >= 2 && name[0] == 'U' && name[1] == '+' {
        Ok(name.skip(2))
    } else {
        Err(ParseErrorSpec::NoPrefix(name))
    }
}

/// The characters that `names` name, each as `U+` and its code point in
/// hexadecimal, or what is wrong with the first name that names none.
pub open spec fn prefixed_values(names: Seq<Seq<char>>) -> Result<Seq<char>, ParseErrorSpec>
    decreases names.len(),
{
    if names.len() == 0 {
        Ok(Seq::empty())
    } else {
        match prefixed_values(names.drop_last()) {
            Err(error) => Err(error),
            Ok(value) => match unprefixed(names.last()) {
                Err(error) => Err(error),
                Ok(digits) => match scalar_value(digits) {
                    Err(error) => Err(error),
                    Ok(c) => Ok(value.push(c)),
                },
            },
        }
    }
}

/// What a line of the emoji list holds: the emoji and its description.
pub open spec fn emoji_line(line: Seq<char>) -> Result<(Seq<char>, Seq<char>), ParseErrorSpec> {
    let tab = index_of(line, '\t');
    if tab >= line.len() {
        Err(ParseErrorSpec::NoTab)
    } else {
        match scalar_values(pieces(line.take(tab), only(' '))) {
            Err(error) => Err(error),
            Ok(value) => Ok((value, line.skip(tab + 1))),
        }
    }
}

/// What a line of the ordering file holds: nothing where all of it is a
/// comment, else the emoji of its first field.
pub open spec fn emoji_order_line(line: Seq<char>) -> Result<Option<Seq<char>>, ParseErrorSpec> {
    let text = line.take(index_of(line, '#'));
    if text.len() == 0 {
        Ok(None)
    } else {
        let field = text.take(index_of(text, ';'));
        match prefixed_values(words(field)) {
            Err(error) => Err(error),
            Ok(value) => if value.len() == 0 {
                Err(ParseErrorSpec::Empty)
            } else {
                Ok(Some(value))
            },
        }
    }
}

/// The character that `chars` name by its code point in hexadecimal.
fn scalar_of(chars: &[char]) -> (read: Result<char, ParseError>)
    ensures
        scalar_view(read) == scalar_value(chars@),
{
    match parse_hex(chars) {
        None => Err(ParseError::NotHex(string_of(chars))),
        Some(value) => match char_from_u32(value) {
            Some(c) => Ok(c),
            None => Err(ParseError::NotScalar(value)),
        },
    }
}

/// The character that `codepoint` names in hexadecimal.
pub fn parse_scalar_value(codepoint: &str) -> (read: Result<char, ParseError>)
    ensures
        scalar_view(read) == scalar_value(codepoint@),
{
    let chars = chars_of(codepoint);
    scalar_of(chars.as_slice())
}

/// Reads one line of the emoji list: the emoji and its description.
pub fn parse_emoji_line(line: &str) -> (read: Result<(String, &str), ParseError>)
    ensures
        match emoji_line(line@) {
            Ok((value, description)) => read matches Ok(found) && found.0@ == value && found.1@
                == description,
            Err(error) => read matches Err(found) && found@ == error,
        },
{
    let chars = chars_of(line);
    let tab = find(chars.as_slice(), '\t');
    if tab >= chars.len() {
        return Err(ParseError::NoTab);
    }
    let names = split(slice_of(chars.as_slice(), 0, tab).as_slice(), ' ');
    assert(chars@.subrange(0, tab as int) =~= line@.take(tab as int));
    let ghost all = parts_view(names@);
    let mut value: Vec<char> = Vec::new();
    let mut i: usize = 0;
    assert(all.take(0) =~= Seq::<Seq<char>>::empty());
    while i < names.len()
        invariant
            i <= names.len(),
            all == parts_view(names@),
            tab == index_of(line@, '\t'),
            tab < line@.len(),
            all == pieces(line@.take(tab as int), only(' ')),
            scalar_values(all.take(i as int)) == Ok::<Seq<char>, ParseErrorSpec>(value@),
        decreases names.len() - i,
    {
        assert(all.take(i + 1).drop_last() =~= all.take(i as int));
        assert(all.take(i + 1).last() == names@[i as int]@);
        match scalar_of(names[i].as_slice()) {
            Err(error) => {
                proof {
                    lemma_scalar_values_fail(all, i as int);
                }
                return Err(error);
            },
            Ok(c) => {
                value.push(c);
            },
        }
        i += 1;
    }
    assert(all.take(i as int) =~= all);
    let description = line.substring_char(tab + 1, chars.len());
    assert(description@ =~= line@.skip(tab + 1));
    Ok((string_of(value.as_slice()), description))
}

/// Where reading stops at a name, it stops there for any longer list too.
proof fn lemma_scalar_values_fail(names: Seq<Seq<char>>, i: int)
    requires
        0 <= i < names.len(),
        scalar_values(names.take(i + 1)) is Err,
    ensures
        scalar_values(names) == scalar_values(names.take(i + 1)),
    decreases names.len(),
{
    if i + 1 < names.len() {
        assert(names.drop_last().take(i + 1) =~= names.take(i + 1));
        lemma_scalar_values_fail(names.drop_last(), i);
    } else {
        assert(names.take(i + 1) =~= names);
    }
}

/// Where reading stops at a name, it stops there for any longer list too.
proof fn lemma_prefixed_values_fail(names: Seq<Seq<char>>, i: int)
    requires
        0 <= i < names.len(),
        prefixed_values(names.take(i + 1)) is Err,
    ensures
        prefixed_values(names) == prefixed_values(names.take(i + 1)),
    decreases names.len(),
{
    if i + 1 < names.len() {
        assert(names.drop_last().take(i + 1) =~= names.take(i + 1));
        lemma_prefixed_values_fail(names.drop_last(), i);
    } else {
        assert(names.take(i + 1) =~= names);
    }
}

/// Reads one line of the ordering file: the emoji of its first field, or
/// nothing where the line is empty or all of it is a comment.
pub fn parse_emoji_order_line(line: &str) -> (read: Result<Option<String>, ParseError>)
    ensures
        match emoji_order_line(line@) {
            Ok(Some(value)) => read matches Ok(Some(found)) && found@ == value,
            Ok(None) => read matches Ok(None),
            Err(error) => read matches Err(found) && found@ == error,
        },
{
    let chars = chars_of(line);
    let end = find(chars.as_slice(), '#');
    if end == 0 {
        return Ok(None);
    }
    let text = slice_of(chars.as_slice(), 0, end);
    assert(text@ =~= line@.take(end as int));
    let stop = find(text.as_slice(), ';');
    let field = slice_of(text.as_slice(), 0, stop);
    assert(field@ =~= text@.take(stop as int));
    let names = split_whitespace(field.as_slice());
    let ghost all = parts_view(names@);
    let mut value: Vec<char> = Vec::new();
    let mut i: usize = 0;
    assert(all.take(0) =~= Seq::<Seq<char>>::empty());
    while i < names.len()
        invariant
            i <= names.len(),
            all == parts_view(names@),
            text@ == line@.take(index_of(line@, '#')),
            text@.len() > 0,
            field@ == text@.take(index_of(text@, ';')),
            all == words(field@),
            prefixed_values(all.take(i as int)) == Ok::<Seq<char>, ParseErrorSpec>(value@),
        decreases names.len() - i,
    {
        assert(all.take(i + 1).drop_last() =~= all.take(i as int));
        assert(all.take(i + 1).last() == names@[i as int]@);
        let name = &names[i];
        if !(name.len() >= 2 && name[0] == 'U' && name[1] == '+') {
            proof {
                lemma_prefixed_values_fail(all, i as int);
            }
            return Err(ParseError::NoPrefix(string_of(name.as_slice())));
        }
        let digits = slice_of(name.as_slice(), 2, name.len());
        assert(digits@ =~= name@.skip(2));
        match scalar_of(digits.as_slice()) {
            Err(error) => {
                proof {
                    lemma_prefixed_values_fail(all, i as int);
                }
                return Err(error);
            },
            Ok(c) => {
                value.push(c);
            },
        }
        i += 1;
    }
    assert(all.take(i as int) =~= all);
    if value.len() == 0 {
        return Err(ParseError::Empty);
    }
    Ok(Some(string_of(value.as_slice())))
}

} // verus!
