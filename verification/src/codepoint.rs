//! Code points as the character database writes them.

use vstd::prelude::*;
use crate::text::{
    char_from_u32, chars_of, control_code, hex_number, is_control, is_scalar, parse_hex, slice_of,
};

verus! {

/// A Unicode code point as it is written in the character database: a
/// number, whether or not it is a scalar value.
#[derive(Clone, Copy, Debug, PartialEq, Eq, Structural, PartialOrd, Ord, Hash)]
pub struct CodePoint(pub u32);

/// Why a text names no code point.
#[derive(Clone, Copy, Debug, PartialEq, Eq, Structural)]
pub enum CodePointError {
    /// The text is no hexadecimal number that fits 32 bits.
    NotHex,
    /// The number is not below the last code point.
    OutOfRange(u32),
}

/// The last code point.
pub const LAST: u32 = 0x10FFFF;

/// The character of a code point, where it has one that can be shown: a
/// scalar value that is no control code.
pub open spec fn printable(value: u32) -> Option<char> {
    if is_scalar(value) && !control_code(value as char) {
        Some(value as char)
    } else {
        None
    }
}

/// The code point that `text` names in hexadecimal. The database's reader
/// takes none from the last code point on.
pub open spec fn code_point(text: Seq<char>) -> Result<CodePoint, CodePointError> {
    match hex_number(text) {
        None => Err(CodePointError::NotHex),
        Some(value) => if value >= LAST {
            Err(CodePointError::OutOfRange(value))
        } else {
            Ok(CodePoint(value))
        },
    }
}

impl CodePoint {
    /// The character to show for the code point, if there is one.
    pub fn as_printable(self) -> (shown: Option<char>)
        ensures
            shown == printable(self.0),
    {
        match char_from_u32(self.0) {
            Some(c) => if is_control(c) {
                None
            } else {
                Some(c)
            },
            None => None,
        }
    }

    /// Reads a code point written in hexadecimal.
    pub fn parse(text: &str) -> (read: Result<CodePoint, CodePointError>)
        ensures
            read == code_point(text@),
    {
        let chars = chars_of(text);
        CodePoint::from_chars(chars.as_slice())
    }

    /// Reads a code point from its hexadecimal digits.
    pub fn from_chars(text: &[char]) -> (read: Result<CodePoint, CodePointError>)
        ensures
            read == code_point(text@),
    {
        match parse_hex(text) {
            None => Err(CodePointError::NotHex),
            Some(value) => if value >= LAST {
                Err(CodePointError::OutOfRange(value))
            } else {
                Ok(CodePoint(value))
            },
        }
    }
}

/// One code point, or the code points from one to another.
#[derive(Clone, Copy, Debug, PartialEq, Eq, Structural)]
pub struct CodePointRange {
    pub start: CodePoint,
    pub end: Option<CodePoint>,
}

/// The index of the first two dots in a row in `text`, or the length of
/// `text` where there are none.
pub open spec fn dots(text: Seq<char>) -> int
    decreases text.len(),
{
    if text.len() < 2 {
        text.len() as int
    } else if text[0] == '.' && text[1] == '.' {
        0
    } else {
        1 + dots(text.drop_first())
    }
}

/// The range that `text` names: one code point, or two with two dots
/// between them.
pub open spec fn code_point_range(text: Seq<char>) -> Result<CodePointRange, CodePointError> {
    let at = dots(text);
    match code_point(text.take(at)) {
        Err(error) => Err(error),
        Ok(start) => if at >= text.len() {
            Ok(CodePointRange { start, end: None })
        } else {
            match code_point(text.skip(at + 2)) {
                Err(error) => Err(error),
                Ok(end) => Ok(CodePointRange { start, end: Some(end) }),
            }
        },
    }
}

/// Whether two dots stand at `i` in `text`.
pub open spec fn dots_at(text: Seq<char>, i: int) -> bool {
    0 <= i && i + 1 < text.len() && text[i] == '.' && text[i + 1] == '.'
}

proof fn lemma_dots(text: Seq<char>, i: int)
    requires
        0 <= i <= text.len(),
        forall|j: int| 0 <= j < i ==> !#[trigger] dots_at(text, j),
        i + 1 < text.len() ==> text[i] == '.' && text[i + 1] == '.',
        i + 1 >= text.len() ==> i == text.len(),
    ensures
        dots(text) == i,
    decreases text.len(),
{
    if text.len() >= 2 && i > 0 {
        let rest = text.drop_first();
        assert forall|j: int| 0 <= j < i - 1 implies !#[trigger] dots_at(rest, j) by {
            assert(!dots_at(text, j + 1));
            if j + 1 < rest.len() {
                assert(rest[j] == text[j + 1]);
                assert(rest[j + 1] == text[j + 2]);
            }
        }
        assert(!dots_at(text, 0));
        lemma_dots(rest, i - 1);
    }
}

impl CodePointRange {
    /// Reads one code point, or two with two dots between them.
    pub fn parse(text: &str) -> (read: Result<CodePointRange, CodePointError>)
        ensures
            read == code_point_range(text@),
    {
        let chars = chars_of(text);
        let mut at: usize = 0;
        while chars.len() - at >= 2 && !(chars[at] == '.' && chars[at + 1] == '.')
            invariant
                at <= chars.len(),
                forall|j: int| 0 <= j < at ==> !#[trigger] dots_at(chars@, j),
            decreases chars.len() - at,
        {
            at += 1;
        }
        if chars.len() - at < 2 {
            at = chars.len();
        }
        proof {
            lemma_dots(chars@, at as int);
        }
        let first = slice_of(chars.as_slice(), 0, at);
        assert(first@ =~= text@.take(at as int));
        let start = match CodePoint::from_chars(first.as_slice()) {
            Err(error) => {
                return Err(error);
            },
            Ok(start) => start,
        };
        if at >= chars.len() {
            return Ok(CodePointRange { start, end: None });
        }
        let second = slice_of(chars.as_slice(), at + 2, chars.len());
        assert(second@ =~= text@.skip(at + 2));
        match CodePoint::from_chars(second.as_slice()) {
            Err(error) => Err(error),
            Ok(end) => Ok(CodePointRange { start, end: Some(end) }),
        }
    }
}

} // verus!
