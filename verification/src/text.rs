//! Helpers on text: characters, hexadecimal numbers, and splitting.

use vstd::prelude::*;

verus! {

/// Whether a character is white space, as `char::is_whitespace` decides it.
pub uninterp spec fn white_space(c: char) -> bool;

/// Whether a character is a control code: one of U+0000 to U+001F or of
/// U+007F to U+009F.
pub open spec fn control_code(c: char) -> bool {
    c <= '\u{1f}' || '\u{7f}' <= c <= '\u{9f}'
}

/// Calls `char::is_whitespace`, whose answer for a character is the same
/// every time; the contract only gives that answer its name.
#[verifier::external_body]
pub(crate) fn is_whitespace(c: char) -> (white: bool)
    ensures
        white == white_space(c),
{
    c.is_whitespace()
}

/// Whether a character is a control code.
pub fn is_control(c: char) -> (control: bool)
    ensures
        control == control_code(c),
{
    c <= '\u{1f}' || ('\u{7f}' <= c && c <= '\u{9f}')
}

/// Whether a number is a Unicode scalar value: a code point that is no
/// surrogate.
pub open spec fn is_scalar(value: u32) -> bool {
    value <= 0xD7FF || 0xE000 <= value <= 0x10FFFF
}

/// Calls `char::from_u32`, which gives the character of a number that is a
/// Unicode scalar value and nothing for any other number.
#[verifier::external_body]
pub(crate) fn char_from_u32(value: u32) -> (c: Option<char>)
    ensures
        c == if is_scalar(value) {
            Some(value as char)
        } else {
            None
        },
{
    char::from_u32(value)
}

/// Calls `String::push`, which appends one character to the text.
#[verifier::external_body]
pub(crate) fn push_char(text: &mut String, c: char)
    ensures
        final(text)@ == old(text)@.push(c),
{
    text.push(c)
}

/// The characters of `text`.
pub fn chars_of(text: &str) -> (chars: Vec<char>)
    ensures
        chars@ == text@,
{
    let mut chars: Vec<char> = Vec::new();
    for c in it: text.chars()
        invariant
            it.seq() == text@,
            chars@ == text@.take(it.index() as int),
    {
        chars.push(c);
        assert(chars@ =~= text@.take(it.index() + 1));
    }
    assert(text@.take(text@.len() as int) =~= text@);
    chars
}

/// The text that `chars` spell.
pub fn string_of(chars: &[char]) -> (text: String)
    ensures
        text@ == chars@,
{
    let mut text = String::new();
    let mut i: usize = 0;
    while i < chars.len()
        invariant
            i <= chars.len(),
            text@ == chars@.take(i as int),
        decreases chars.len() - i,
    {
        push_char(&mut text, chars[i]);
        i += 1;
        assert(text@ =~= chars@.take(i as int));
    }
    assert(chars@.take(i as int) =~= chars@);
    text
}

/// The characters of `chars` from `from` up to `to`.
pub fn slice_of(chars: &[char], from: usize, to: usize) -> (part: Vec<char>)
    requires
        from <= to <= chars@.len(),
    ensures
        part@ == chars@.subrange(from as int, to as int),
{
    let mut part: Vec<char> = Vec::new();
    let mut i: usize = from;
    while i < to
        invariant
            from <= i <= to <= chars@.len(),
            part@ == chars@.subrange(from as int, i as int),
        decreases to - i,
    {
        part.push(chars[i]);
        i += 1;
        assert(part@ =~= chars@.subrange(from as int, i as int));
    }
    part
}

/// The index of the first `c` in `chars`, or the length of `chars` where
/// there is none.
pub open spec fn index_of(chars: Seq<char>, c: char) -> int
    decreases chars.len(),
{
    if chars.len() == 0 || chars[0] == c {
        0
    } else {
        1 + index_of(chars.drop_first(), c)
    }
}

/// `index_of` gives the first occurrence.
pub proof fn lemma_index_of(chars: Seq<char>, c: char, i: int)
    requires
        0 <= i <= chars.len(),
        forall|j: int| 0 <= j < i ==> chars[j] != c,
        i < chars.len() ==> chars[i] == c,
    ensures
        index_of(chars, c) == i,
    decreases chars.len(),
{
    if i > 0 {
        let rest = chars.drop_first();
        assert forall|j: int| 0 <= j < i - 1 implies rest[j] != c by {
            assert(rest[j] == chars[j + 1]);
        }
        lemma_index_of(rest, c, i - 1);
    }
}

/// The index of the first `c` in `chars`, or the length of `chars`.
pub fn find(chars: &[char], c: char) -> (i: usize)
    ensures
        i == index_of(chars@, c),
        i <= chars@.len(),
{
    let mut i: usize = 0;
    while i < chars.len() && chars[i] != c
        invariant
            i <= chars.len(),
            forall|j: int| 0 <= j < i ==> chars@[j] != c,
        decreases chars.len() - i,
    {
        i += 1;
    }
    proof {
        lemma_index_of(chars@, c, i as int);
    }
    i
}

/// The pieces of `items` between the items that `separates` holds of: one
/// more piece than there are such items, empty pieces included.
pub open spec fn pieces<T>(items: Seq<T>, separates: spec_fn(T) -> bool) -> Seq<Seq<T>>
    decreases items.len(),
{
    if items.len() == 0 {
        seq![Seq::empty()]
    } else {
        let before = pieces(items.drop_last(), separates);
        if separates(items.last()) {
            before.push(Seq::empty())
        } else {
            before.drop_last().push(before.last().push(items.last()))
        }
    }
}

/// The predicate that holds of `item` alone.
pub open spec fn only<T>(item: T) -> spec_fn(T) -> bool {
    |other: T| other == item
}

/// The predicate that holds of white space.
pub open spec fn any_white_space() -> spec_fn(char) -> bool {
    |c: char| white_space(c)
}

/// The pieces of `chars` that are not empty.
pub open spec fn nonempty(parts: Seq<Seq<char>>) -> Seq<Seq<char>>
    decreases parts.len(),
{
    if parts.len() == 0 {
        Seq::empty()
    } else if parts.last().len() > 0 {
        nonempty(parts.drop_last()).push(parts.last())
    } else {
        nonempty(parts.drop_last())
    }
}

/// The words of `chars`: what stands between white space.
pub open spec fn words(chars: Seq<char>) -> Seq<Seq<char>> {
    nonempty(pieces(chars, any_white_space()))
}

/// The mathematical value of a list of pieces.
pub open spec fn parts_view(parts: Seq<Vec<char>>) -> Seq<Seq<char>> {
    Seq::new(parts.len(), |i: int| parts[i]@)
}

/// The pieces of `chars` between the occurrences of `separator`.
pub fn split(chars: &[char], separator: char) -> (parts: Vec<Vec<char>>)
    ensures
        parts_view(parts@) == pieces(chars@, only(separator)),
{
    let ghost separates = only(separator);
    let mut parts: Vec<Vec<char>> = Vec::new();
    let mut current: Vec<char> = Vec::new();
    let mut i: usize = 0;
    assert(parts_view(parts@).push(current@) =~= pieces(chars@.take(0), separates));
    while i < chars.len()
        invariant
            i <= chars.len(),
            separates == only(separator),
            parts_view(parts@).push(current@) == pieces(chars@.take(i as int), separates),
        decreases chars.len() - i,
    {
        let ghost done = parts_view(parts@);
        let ghost piece = current@;
        let c = chars[i];
        assert(chars@.take(i + 1).drop_last() =~= chars@.take(i as int));
        assert(chars@.take(i + 1).last() == c);
        if c == separator {
            parts.push(current);
            current = Vec::new();
            assert(parts_view(parts@).push(current@) =~= done.push(piece).push(Seq::empty()));
        } else {
            current.push(c);
            assert(done.push(piece).drop_last() =~= done);
            assert(parts_view(parts@).push(current@) =~= done.push(piece.push(c)));
        }
        i += 1;
    }
    assert(chars@.take(i as int) =~= chars@);
    let ghost done = parts_view(parts@);
    parts.push(current);
    assert(parts_view(parts@) =~= done.push(current@));
    parts
}

/// The words of `chars`.
pub fn split_whitespace(chars: &[char]) -> (found: Vec<Vec<char>>)
    ensures
        parts_view(found@) == words(chars@),
{
    let ghost separates = any_white_space();
    let mut found: Vec<Vec<char>> = Vec::new();
    let mut current: Vec<char> = Vec::new();
    let mut i: usize = 0;
    assert(pieces(chars@.take(0), separates) =~= seq![Seq::<char>::empty()]);
    assert(pieces(chars@.take(0), separates).drop_last() =~= Seq::<Seq<char>>::empty());
    while i < chars.len()
        invariant
            i <= chars.len(),
            separates == any_white_space(),
            pieces(chars@.take(i as int), separates).len() >= 1,
            parts_view(found@) == nonempty(pieces(chars@.take(i as int), separates).drop_last()),
            current@ == pieces(chars@.take(i as int), separates).last(),
        decreases chars.len() - i,
    {
        let ghost before = pieces(chars@.take(i as int), separates);
        let ghost had = parts_view(found@);
        let ghost piece = current@;
        let c = chars[i];
        assert(chars@.take(i + 1).drop_last() =~= chars@.take(i as int));
        assert(chars@.take(i + 1).last() == c);
        let ghost now = pieces(chars@.take(i + 1), separates);
        if is_whitespace(c) {
            assert(now == before.push(Seq::empty()));
            assert(now.drop_last() =~= before);
            assert(before =~= before.drop_last().push(piece));
            if current.len() > 0 {
                found.push(current);
                assert(parts_view(found@) =~= had.push(piece));
            }
            current = Vec::new();
        } else {
            current.push(c);
            assert(now == before.drop_last().push(piece.push(c)));
            assert(now.drop_last() =~= before.drop_last());
        }
        i += 1;
    }
    assert(chars@.take(i as int) =~= chars@);
    let ghost all = pieces(chars@, separates);
    assert(all =~= all.drop_last().push(current@));
    if current.len() > 0 {
        let ghost had = parts_view(found@);
        found.push(current);
        assert(parts_view(found@) =~= had.push(all.last()));
    }
    found
}

/// The value of a hexadecimal digit, in either case.
pub open spec fn hex_digit(c: char) -> Option<int> {
    if '0' <= c <= '9' {
        Some(c as int - '0' as int)
    } else if 'a' <= c <= 'f' {
        Some(c as int - 'a' as int + 10)
    } else if 'A' <= c <= 'F' {
        Some(c as int - 'A' as int + 10)
    } else {
        None
    }
}

/// Whether every character is a hexadecimal digit.
pub open spec fn all_hex(digits: Seq<char>) -> bool {
    forall|i: int| 0 <= i < digits.len() ==> (#[trigger] hex_digit(digits[i])) is Some
}

/// The number that hexadecimal digits spell, the most significant first.
pub open spec fn hex_value(digits: Seq<char>) -> int
    decreases digits.len(),
{
    if digits.len() == 0 {
        0
    } else {
        hex_value(digits.drop_last()) * 16 + match hex_digit(digits.last()) {
            Some(value) => value,
            None => 0,
        }
    }
}

/// The digits of a number that may have a plus sign in front.
pub open spec fn unsigned(text: Seq<char>) -> Seq<char> {
    if text.len() > 0 && text[0] == '+' {
        text.drop_first()
    } else {
        text
    }
}

/// The 32-bit number that `text` spells in hexadecimal: an optional plus
/// sign, then one digit or more, nothing else, and no more than fits.
pub open spec fn hex_number(text: Seq<char>) -> Option<u32> {
    let digits = unsigned(text);
    if digits.len() > 0 && all_hex(digits) && hex_value(digits) <= u32::MAX {
        Some(hex_value(digits) as u32)
    } else {
        None
    }
}

/// More digits never spell a smaller number.
pub proof fn lemma_hex_value_grows(digits: Seq<char>, i: int)
    requires
        0 <= i <= digits.len(),
    ensures
        0 <= hex_value(digits.take(i)) <= hex_value(digits),
    decreases digits.len() - i,
{
    lemma_hex_value_nonnegative(digits.take(i));
    if i < digits.len() {
        lemma_hex_value_grows(digits, i + 1);
        assert(digits.take(i + 1).drop_last() =~= digits.take(i));
    } else {
        assert(digits.take(i) =~= digits);
    }
}

proof fn lemma_hex_value_nonnegative(digits: Seq<char>)
    ensures
        0 <= hex_value(digits),
    decreases digits.len(),
{
    if digits.len() > 0 {
        lemma_hex_value_nonnegative(digits.drop_last());
    }
}

/// The value of a hexadecimal digit.
fn digit_of(c: char) -> (value: Option<u32>)
    ensures
        match hex_digit(c) {
            Some(digit) => value == Some(digit as u32) && 0 <= digit < 16,
            None => value is None,
        },
{
    if '0' <= c && c <= '9' {
        Some(c as u32 - '0' as u32)
    } else if 'a' <= c && c <= 'f' {
        Some(c as u32 - 'a' as u32 + 10)
    } else if 'A' <= c && c <= 'F' {
        Some(c as u32 - 'A' as u32 + 10)
    } else {
        None
    }
}

/// The 32-bit number that `text` spells in hexadecimal.
pub fn parse_hex(text: &[char]) -> (number: Option<u32>)
    ensures
        number == hex_number(text@),
{
    let start: usize = if text.len() > 0 && text[0] == '+' {
        1
    } else {
        0
    };
    let ghost digits = unsigned(text@);
    assert(digits =~= text@.subrange(start as int, text@.len() as int));
    if start == text.len() {
        return None;
    }
    let mut value: u64 = 0;
    let mut i: usize = start;
    assert(digits.take(0) =~= Seq::<char>::empty());
    while i < text.len()
        invariant
            start <= i <= text.len(),
            digits == text@.subrange(start as int, text@.len() as int),
            digits == unsigned(text@),
            all_hex(digits.take(i - start)),
            value == hex_value(digits.take(i - start)),
            value <= u32::MAX,
        decreases text.len() - i,
    {
        let ghost seen = digits.take(i - start);
        let ghost more = digits.take(i - start + 1);
        assert(more.drop_last() =~= seen);
        assert(more.last() == text@[i as int]);
        match digit_of(text[i]) {
            None => {
                assert(digits[i - start] == text@[i as int]);
                assert(hex_digit(digits[i - start]) is None);
                assert(!all_hex(digits));
                return None;
            },
            Some(digit) => {
                value = value * 16 + digit as u64;
                assert(value == hex_value(more));
                assert forall|j: int| 0 <= j < more.len() implies (#[trigger] hex_digit(
                    more[j],
                )) is Some by {
                    if j < seen.len() {
                        assert(more[j] == seen[j]);
                    }
                }
                if value > u32::MAX as u64 {
                    proof {
                        lemma_hex_value_grows(digits, i - start + 1);
                        assert(hex_value(digits) > u32::MAX);
                    }
                    return None;
                }
            },
        }
        i += 1;
    }
    assert(digits.take(i - start) =~= digits);
    Some(value as u32)
}

/// `chars` without the white space at its start.
pub open spec fn trim_start(chars: Seq<char>) -> Seq<char>
    decreases chars.len(),
{
    if chars.len() > 0 && white_space(chars[0]) {
        trim_start(chars.drop_first())
    } else {
        chars
    }
}

/// `chars` without the white space at its end.
pub open spec fn trim_end(chars: Seq<char>) -> Seq<char>
    decreases chars.len(),
{
    if chars.len() > 0 && white_space(chars.last()) {
        trim_end(chars.drop_last())
    } else {
        chars
    }
}

/// `chars` without the white space at its start and at its end.
pub open spec fn trimmed(chars: Seq<char>) -> Seq<char> {
    trim_end(trim_start(chars))
}

/// `chars` without the white space at its start and at its end.
pub fn trim(chars: &[char]) -> (rest: Vec<char>)
    ensures
        rest@ == trimmed(chars@),
{
    let mut from: usize = 0;
    assert(chars@.skip(0) =~= chars@);
    while from < chars.len() && is_whitespace(chars[from])
        invariant
            from <= chars.len(),
            trim_start(chars@) == trim_start(chars@.skip(from as int)),
        decreases chars.len() - from,
    {
        assert(chars@.skip(from as int).drop_first() =~= chars@.skip(from + 1));
        from += 1;
    }
    let ghost tail = chars@.skip(from as int);
    assert(trim_start(chars@) == tail);
    let mut to: usize = chars.len();
    assert(tail.take(to - from) =~= tail);
    while to > from && is_whitespace(chars[to - 1])
        invariant
            from <= to <= chars.len(),
            tail == chars@.skip(from as int),
            trim_end(tail) == trim_end(tail.take(to - from)),
        decreases to - from,
    {
        assert(tail.take(to - from).drop_last() =~= tail.take(to - from - 1));
        assert(tail.take(to - from).last() == chars@[to - 1]);
        to -= 1;
    }
    proof {
        let kept = tail.take(to - from);
        if kept.len() > 0 {
            assert(kept.last() == chars@[to - 1]);
        }
        assert(trim_end(kept) == kept);
        assert(kept =~= chars@.subrange(from as int, to as int));
    }
    slice_of(chars, from, to)
}

/// `line` without the carriage return at its end, if it has one.
pub open spec fn without_return(line: Seq<char>) -> Seq<char> {
    if line.len() > 0 && line.last() == '\r' {
        line.drop_last()
    } else {
        line
    }
}

/// The lines among the first `count` pieces between line feeds: each
/// without the carriage return before its line feed.
pub open spec fn ended_lines(parts: Seq<Seq<char>>, count: int) -> Seq<Seq<char>> {
    Seq::new(count as nat, |i: int| without_return(parts[i]))
}

/// The lines of `text`. A line ends with a line feed, which is left out
/// together with a carriage return before it. What follows the last line
/// feed is a line too, unless it is empty.
pub open spec fn lines_of(text: Seq<char>) -> Seq<Seq<char>> {
    let parts = pieces(text, only('\n'));
    let ended = ended_lines(parts, parts.len() - 1);
    if parts.last().len() > 0 {
        ended.push(parts.last())
    } else {
        ended
    }
}

/// There is always a piece.
pub proof fn lemma_pieces_nonempty<T>(items: Seq<T>, separates: spec_fn(T) -> bool)
    ensures
        pieces(items, separates).len() >= 1,
    decreases items.len(),
{
    if items.len() > 0 {
        lemma_pieces_nonempty(items.drop_last(), separates);
    }
}

/// The lines of `text`.
pub fn lines(text: &[char]) -> (found: Vec<Vec<char>>)
    ensures
        parts_view(found@) == lines_of(text@),
{
    let parts = split(text, '\n');
    proof {
        lemma_pieces_nonempty(text@, only('\n'));
    }
    let ghost all = parts_view(parts@);
    let mut found: Vec<Vec<char>> = Vec::new();
    let mut i: usize = 0;
    assert(parts_view(found@) =~= ended_lines(all, 0));
    while i + 1 < parts.len()
        invariant
            i + 1 <= parts.len(),
            all == parts_view(parts@),
            parts_view(found@) == ended_lines(all, i as int),
        decreases parts.len() - i,
    {
        let part = &parts[i];
        let ghost had = parts_view(found@);
        let line = if part.len() > 0 && part[part.len() - 1] == '\r' {
            let cut = slice_of(part.as_slice(), 0, part.len() - 1);
            assert(cut@ =~= part@.drop_last());
            cut
        } else {
            let whole = slice_of(part.as_slice(), 0, part.len());
            assert(whole@ =~= part@);
            whole
        };
        assert(line@ == without_return(all[i as int]));
        found.push(line);
        assert(parts_view(found@) =~= had.push(line@));
        i += 1;
        assert(parts_view(found@) =~= ended_lines(all, i as int));
    }
    let last = &parts[parts.len() - 1];
    if last.len() > 0 {
        let ghost had = parts_view(found@);
        let whole = slice_of(last.as_slice(), 0, last.len());
        assert(whole@ =~= last@);
        found.push(whole);
        assert(parts_view(found@) =~= had.push(all.last()));
    }
    found
}

/// The digit that stands for `value`, a letter in upper case from ten on.
pub open spec fn upper_hex_digit(value: int) -> char {
    if value < 10 {
        ('0' as int + value) as char
    } else {
        ('A' as int + value - 10) as char
    }
}

/// The hexadecimal digits of `value`, the most significant first, without
/// zeros in front; one zero for zero.
pub open spec fn upper_hex(value: nat) -> Seq<char>
    decreases value,
{
    if value < 16 {
        seq![upper_hex_digit(value as int)]
    } else {
        upper_hex(value / 16).push(upper_hex_digit((value % 16) as int))
    }
}

/// `digits` with zeros in front up to the length `width`.
pub open spec fn zero_padded(digits: Seq<char>, width: nat) -> Seq<char>
    decreases width - digits.len(),
{
    if digits.len() < width {
        zero_padded(seq!['0'] + digits, width)
    } else {
        digits
    }
}

fn upper_digit(value: u32) -> (digit: char)
    requires
        value < 16,
    ensures
        digit == upper_hex_digit(value as int),
{
    let code = if value < 10 {
        '0' as u8 + value as u8
    } else {
        'A' as u8 + (value - 10) as u8
    };
    code as char
}

/// `value` in hexadecimal with letters in upper case, with zeros in front
/// where it has fewer than `width` digits.
pub fn to_upper_hex(value: u32, width: usize) -> (text: String)
    ensures
        text@ == zero_padded(upper_hex(value as nat), width as nat),
{
    let mut low_first: Vec<char> = Vec::new();
    let mut rest = value;
    while rest >= 16
        invariant
            upper_hex(value as nat) == upper_hex(rest as nat) + low_first@.reverse(),
        decreases rest,
    {
        let ghost before = low_first@;
        let digit = upper_digit(rest % 16);
        low_first.push(digit);
        proof {
            let next = (rest / 16) as nat;
            assert(upper_hex(rest as nat) == upper_hex(next).push(digit));
            assert(low_first@.reverse() =~= seq![digit] + before.reverse());
            assert(upper_hex(next).push(digit) + before.reverse() =~= upper_hex(next)
                + low_first@.reverse());
        }
        rest = rest / 16;
    }
    let ghost before = low_first@;
    let digit = upper_digit(rest);
    low_first.push(digit);
    assert(low_first@.reverse() =~= seq![digit] + before.reverse());
    assert(low_first@.reverse() =~= upper_hex(value as nat));
    let ghost digits = upper_hex(value as nat);
    while low_first.len() < width
        invariant
            zero_padded(digits, width as nat) == zero_padded(low_first@.reverse(), width as nat),
        decreases width - low_first.len(),
    {
        let ghost had = low_first@.reverse();
        low_first.push('0');
        assert(low_first@.reverse() =~= seq!['0'] + had);
    }
    let mut text = String::new();
    let mut i: usize = low_first.len();
    let ghost wanted = low_first@.reverse();
    assert(wanted.take(0) =~= Seq::<char>::empty());
    while i > 0
        invariant
            i <= low_first.len(),
            wanted == low_first@.reverse(),
            text@ == wanted.take(low_first.len() - i),
        decreases i,
    {
        i -= 1;
        push_char(&mut text, low_first[i]);
        assert(text@ =~= wanted.take(low_first.len() - i));
    }
    assert(wanted.take(low_first.len() as int) =~= wanted);
    text
}

} // verus!
