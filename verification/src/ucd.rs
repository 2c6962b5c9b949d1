//! The character database: its lines, and the list of code points that is
//! made from them.
//!
//! A file of the database holds one record on each line, with `;` between
//! the fields and white space around them; what follows a `#` is a comment.
//! `UnicodeData.txt` names each code point, and `NameAliases.txt` holds the
//! corrections and other names of some.

use vstd::prelude::*;
use crate::codepoint::{code_point, CodePoint, CodePointError};
use crate::text::{
    chars_of, find, index_of, lemma_pieces_nonempty, lines, lines_of, only, parts_view, pieces,
    slice_of, split, string_of, trim, trimmed,
};

verus! {

/// What an alias is to the name of its code point.
#[derive(Clone, Copy, Debug, PartialEq, Eq, Structural)]
pub enum AliasType {
    Correction,
    Control,
    Alternate,
    Figment,
    Abbreviation,
}

/// A line of `UnicodeData.txt`, as far as it is used.
#[derive(Debug, PartialEq, Eq)]
pub struct UnicodeDataLine {
    pub code_point: CodePoint,
    pub name: String,
}

/// A line of `NameAliases.txt`.
#[derive(Debug, PartialEq, Eq)]
pub struct NameAlias {
    pub code_point: CodePoint,
    pub value: String,
    pub ty: AliasType,
}

/// Why a line is no record.
#[derive(Debug, PartialEq, Eq)]
pub enum LineError {
    /// The first field names no code point.
    CodePoint(CodePointError),
    /// The line has more or fewer fields than a record.
    FieldCount { expected: usize, found: usize },
    /// The field names no kind of alias.
    AliasType(String),
}

/// Why a file cannot be read: the number of the line, from 1, and what is
/// wrong with it.
#[derive(Debug, PartialEq, Eq)]
pub struct FileError {
    pub line: usize,
    pub error: LineError,
}

/// The mathematical value of a [`UnicodeDataLine`].
pub ghost struct UnicodeDataSpec {
    pub code_point: CodePoint,
    pub name: Seq<char>,
}

/// The mathematical value of a [`NameAlias`].
pub ghost struct NameAliasSpec {
    pub code_point: CodePoint,
    pub value: Seq<char>,
    pub ty: AliasType,
}

/// The mathematical value of a [`LineError`].
pub ghost enum LineErrorSpec {
    CodePoint(CodePointError),
    FieldCount { expected: int, found: int },
    AliasType(Seq<char>),
}

/// The mathematical value of a [`FileError`].
pub ghost struct FileErrorSpec {
    pub line: int,
    pub error: LineErrorSpec,
}

impl View for UnicodeDataLine {
    type V = UnicodeDataSpec;

    open spec fn view(&self) -> UnicodeDataSpec {
        UnicodeDataSpec { code_point: self.code_point, name: self.name@ }
    }
}

impl View for NameAlias {
    type V = NameAliasSpec;

    open spec fn view(&self) -> NameAliasSpec {
        NameAliasSpec { code_point: self.code_point, value: self.value@, ty: self.ty }
    }
}

impl View for LineError {
    type V = LineErrorSpec;

    open spec fn view(&self) -> LineErrorSpec {
        match self {
            LineError::CodePoint(error) => LineErrorSpec::CodePoint(*error),
            LineError::FieldCount { expected, found } => LineErrorSpec::FieldCount {
                expected: *expected as int,
                found: *found as int,
            },
            LineError::AliasType(text) => LineErrorSpec::AliasType(text@),
        }
    }
}

impl View for FileError {
    type V = FileErrorSpec;

    open spec fn view(&self) -> FileErrorSpec {
        FileErrorSpec { line: self.line as int, error: self.error@ }
    }
}

/// The number of fields of a line of `UnicodeData.txt`.
pub const UNICODE_DATA_FIELDS: usize = 15;

/// The number of fields of a line of `NameAliases.txt`.
pub const NAME_ALIAS_FIELDS: usize = 3;

/// The fields of a line: what stands between the `;`, without the white
/// space around it.
pub open spec fn fields_of(line: Seq<char>) -> Seq<Seq<char>> {
    let parts = pieces(line, only(';'));
    Seq::new(parts.len(), |i: int| trimmed(parts[i]))
}

/// The kind of alias that a field names.
pub open spec fn alias_type(field: Seq<char>) -> Option<AliasType> {
    if field == "correction"@ {
        Some(AliasType::Correction)
    } else if field == "control"@ {
        Some(AliasType::Control)
    } else if field == "alternate"@ {
        Some(AliasType::Alternate)
    } else if field == "figment"@ {
        Some(AliasType::Figment)
    } else if field == "abbreviation"@ {
        Some(AliasType::Abbreviation)
    } else {
        None
    }
}

/// The record of a line of `UnicodeData.txt`.
pub open spec fn unicode_data_line(line: Seq<char>) -> Result<UnicodeDataSpec, LineErrorSpec> {
    let fields = fields_of(line);
    match code_point(fields[0]) {
        Err(error) => Err(LineErrorSpec::CodePoint(error)),
        Ok(code_point) => if fields.len() != UNICODE_DATA_FIELDS {
            Err(
                LineErrorSpec::FieldCount {
                    expected: UNICODE_DATA_FIELDS as int,
                    found: fields.len() as int,
                },
            )
        } else {
            Ok(UnicodeDataSpec { code_point, name: fields[1] })
        },
    }
}

/// The record of a line of `NameAliases.txt`.
pub open spec fn name_alias_line(line: Seq<char>) -> Result<NameAliasSpec, LineErrorSpec> {
    let fields = fields_of(line);
    let count = LineErrorSpec::FieldCount {
        expected: NAME_ALIAS_FIELDS as int,
        found: fields.len() as int,
    };
    match code_point(fields[0]) {
        Err(error) => Err(LineErrorSpec::CodePoint(error)),
        Ok(code_point) => if fields.len() < NAME_ALIAS_FIELDS {
            Err(count)
        } else {
            match alias_type(fields[2]) {
                None => Err(LineErrorSpec::AliasType(fields[2])),
                Some(ty) => if fields.len() > NAME_ALIAS_FIELDS {
                    Err(count)
                } else {
                    Ok(NameAliasSpec { code_point, value: fields[1], ty })
                },
            }
        },
    }
}

/// A line without its comment.
pub open spec fn uncommented(line: Seq<char>) -> Seq<char> {
    line.take(index_of(line, '#'))
}

/// The records of the lines of `UnicodeData.txt`: one for each line that is
/// not empty once its comment is taken off, or the first line that is no
/// record.
pub open spec fn unicode_data(lines: Seq<Seq<char>>) -> Result<Seq<UnicodeDataSpec>, FileErrorSpec>
    decreases lines.len(),
{
    if lines.len() == 0 {
        Ok(Seq::empty())
    } else {
        match unicode_data(lines.drop_last()) {
            Err(error) => Err(error),
            Ok(found) => {
                let line = uncommented(lines.last());
                if line.len() == 0 {
                    Ok(found)
                } else {
                    match unicode_data_line(line) {
                        Err(error) => Err(FileErrorSpec { line: lines.len() as int, error }),
                        Ok(record) => Ok(found.push(record)),
                    }
                }
            },
        }
    }
}

/// The records of the lines of `NameAliases.txt`: one for each line that is
/// not empty once its comment is taken off, or the first line that is no
/// record.
pub open spec fn name_aliases(lines: Seq<Seq<char>>) -> Result<Seq<NameAliasSpec>, FileErrorSpec>
    decreases lines.len(),
{
    if lines.len() == 0 {
        Ok(Seq::empty())
    } else {
        match name_aliases(lines.drop_last()) {
            Err(error) => Err(error),
            Ok(found) => {
                let line = uncommented(lines.last());
                if line.len() == 0 {
                    Ok(found)
                } else {
                    match name_alias_line(line) {
                        Err(error) => Err(FileErrorSpec { line: lines.len() as int, error }),
                        Ok(record) => Ok(found.push(record)),
                    }
                }
            },
        }
    }
}

/// The mathematical value of a list of lines of `UnicodeData.txt`.
pub open spec fn data_view(records: Seq<UnicodeDataLine>) -> Seq<UnicodeDataSpec> {
    Seq::new(records.len(), |i: int| records[i]@)
}

/// The mathematical value of a list of lines of `NameAliases.txt`.
pub open spec fn aliases_view(records: Seq<NameAlias>) -> Seq<NameAliasSpec> {
    Seq::new(records.len(), |i: int| records[i]@)
}

/// The fields of a line.
pub fn fields(line: &[char]) -> (found: Vec<Vec<char>>)
    ensures
        parts_view(found@) == fields_of(line@),
{
    let parts = split(line, ';');
    let ghost all = parts_view(parts@);
    let mut found: Vec<Vec<char>> = Vec::new();
    let mut i: usize = 0;
    while i < parts.len()
        invariant
            i <= parts.len(),
            all == parts_view(parts@),
            all == pieces(line@, only(';')),
            parts_view(found@) == fields_of(line@).take(i as int),
        decreases parts.len() - i,
    {
        let ghost had = parts_view(found@);
        let field = trim(parts[i].as_slice());
        found.push(field);
        assert(parts_view(found@) =~= had.push(field@));
        i += 1;
        assert(parts_view(found@) =~= fields_of(line@).take(i as int));
    }
    assert(fields_of(line@).take(i as int) =~= fields_of(line@));
    found
}

/// Whether `chars` spell `text`.
fn spells(chars: &[char], text: &str) -> (same: bool)
    ensures
        same == (chars@ == text@),
{
    let wanted = chars_of(text);
    if wanted.len() != chars.len() {
        return false;
    }
    let mut i: usize = 0;
    while i < wanted.len()
        invariant
            i <= wanted.len(),
            wanted.len() == chars.len(),
            wanted@ == text@,
            forall|j: int| 0 <= j < i ==> chars@[j] == wanted@[j],
        decreases wanted.len() - i,
    {
        if chars[i] != wanted[i] {
            return false;
        }
        i += 1;
    }
    assert(chars@ =~= text@);
    true
}

/// The kind of alias that a field names.
fn parse_alias_type(field: &[char]) -> (ty: Option<AliasType>)
    ensures
        ty == alias_type(field@),
{
    if spells(field, "correction") {
        Some(AliasType::Correction)
    } else if spells(field, "control") {
        Some(AliasType::Control)
    } else if spells(field, "alternate") {
        Some(AliasType::Alternate)
    } else if spells(field, "figment") {
        Some(AliasType::Figment)
    } else if spells(field, "abbreviation") {
        Some(AliasType::Abbreviation)
    } else {
        None
    }
}

/// Reads one line of `UnicodeData.txt`.
pub fn parse_unicode_data_line(line: &[char]) -> (read: Result<UnicodeDataLine, LineError>)
    ensures
        match unicode_data_line(line@) {
            Ok(record) => read matches Ok(found) && found@ == record,
            Err(error) => read matches Err(found) && found@ == error,
        },
{
    let found = fields(line);
    proof {
        lemma_pieces_nonempty(line@, only(';'));
        let all = parts_view(found@);
        assert(all.len() == found@.len());
        assert(forall|i: int| 0 <= i < found@.len() ==> all[i] == (#[trigger] found@[i])@);
    }
    match CodePoint::from_chars(found[0].as_slice()) {
        Err(error) => Err(LineError::CodePoint(error)),
        Ok(code_point) => if found.len() != UNICODE_DATA_FIELDS {
            Err(LineError::FieldCount { expected: UNICODE_DATA_FIELDS, found: found.len() })
        } else {
            Ok(UnicodeDataLine { code_point, name: string_of(found[1].as_slice()) })
        },
    }
}

/// Reads one line of `NameAliases.txt`.
pub fn parse_name_alias_line(line: &[char]) -> (read: Result<NameAlias, LineError>)
    ensures
        match name_alias_line(line@) {
            Ok(record) => read matches Ok(found) && found@ == record,
            Err(error) => read matches Err(found) && found@ == error,
        },
{
    let found = fields(line);
    proof {
        lemma_pieces_nonempty(line@, only(';'));
        let all = parts_view(found@);
        assert(all.len() == found@.len());
        assert(forall|i: int| 0 <= i < found@.len() ==> all[i] == (#[trigger] found@[i])@);
    }
    match CodePoint::from_chars(found[0].as_slice()) {
        Err(error) => Err(LineError::CodePoint(error)),
        Ok(code_point) => if found.len() < NAME_ALIAS_FIELDS {
            Err(LineError::FieldCount { expected: NAME_ALIAS_FIELDS, found: found.len() })
        } else {
            match parse_alias_type(found[2].as_slice()) {
                None => Err(LineError::AliasType(string_of(found[2].as_slice()))),
                Some(ty) => if found.len() > NAME_ALIAS_FIELDS {
                    Err(LineError::FieldCount { expected: NAME_ALIAS_FIELDS, found: found.len() })
                } else {
                    Ok(NameAlias { code_point, value: string_of(found[1].as_slice()), ty })
                },
            }
        },
    }
}

/// What is wrong with a line stays wrong with more lines after it.
proof fn lemma_unicode_data_fails(lines: Seq<Seq<char>>, i: int)
    requires
        0 <= i < lines.len(),
        unicode_data(lines.take(i + 1)) is Err,
    ensures
        unicode_data(lines) == unicode_data(lines.take(i + 1)),
    decreases lines.len(),
{
    if i + 1 < lines.len() {
        assert(lines.drop_last().take(i + 1) =~= lines.take(i + 1));
        lemma_unicode_data_fails(lines.drop_last(), i);
    } else {
        assert(lines.take(i + 1) =~= lines);
    }
}

/// What is wrong with a line stays wrong with more lines after it.
proof fn lemma_name_aliases_fail(lines: Seq<Seq<char>>, i: int)
    requires
        0 <= i < lines.len(),
        name_aliases(lines.take(i + 1)) is Err,
    ensures
        name_aliases(lines) == name_aliases(lines.take(i + 1)),
    decreases lines.len(),
{
    if i + 1 < lines.len() {
        assert(lines.drop_last().take(i + 1) =~= lines.take(i + 1));
        lemma_name_aliases_fail(lines.drop_last(), i);
    } else {
        assert(lines.take(i + 1) =~= lines);
    }
}

/// Reads the text of `UnicodeData.txt`.
pub fn read_unicode_data(file: &str) -> (read: Result<Vec<UnicodeDataLine>, FileError>)
    ensures
        match unicode_data(lines_of(file@)) {
            Ok(records) => read matches Ok(found) && data_view(found@) == records,
            Err(error) => read matches Err(found) && found@ == error,
        },
{
    let chars = chars_of(file);
    let all = lines(chars.as_slice());
    let ghost texts = parts_view(all@);
    let mut found: Vec<UnicodeDataLine> = Vec::new();
    let mut i: usize = 0;
    assert(texts.take(0) =~= Seq::<Seq<char>>::empty());
    assert(data_view(found@) =~= Seq::<UnicodeDataSpec>::empty());
    while i < all.len()
        invariant
            i <= all.len(),
            texts == parts_view(all@),
            texts == lines_of(file@),
            unicode_data(texts.take(i as int)) == Ok::<Seq<UnicodeDataSpec>, FileErrorSpec>(
                data_view(found@),
            ),
        decreases all.len() - i,
    {
        let ghost had = data_view(found@);
        assert(texts.take(i + 1).drop_last() =~= texts.take(i as int));
        assert(texts.take(i + 1).last() == all@[i as int]@);
        let end = find(all[i].as_slice(), '#');
        if end > 0 {
            let line = slice_of(all[i].as_slice(), 0, end);
            assert(line@ =~= uncommented(all@[i as int]@));
            match parse_unicode_data_line(line.as_slice()) {
                Err(error) => {
                    proof {
                        lemma_unicode_data_fails(texts, i as int);
                    }
                    return Err(FileError { line: i + 1, error });
                },
                Ok(record) => {
                    found.push(record);
                    assert(data_view(found@) =~= had.push(record@));
                },
            }
        }
        i += 1;
    }
    assert(texts.take(i as int) =~= texts);
    Ok(found)
}

/// Reads the text of `NameAliases.txt`.
pub fn read_name_aliases(file: &str) -> (read: Result<Vec<NameAlias>, FileError>)
    ensures
        match name_aliases(lines_of(file@)) {
            Ok(records) => read matches Ok(found) && aliases_view(found@) == records,
            Err(error) => read matches Err(found) && found@ == error,
        },
{
    let chars = chars_of(file);
    let all = lines(chars.as_slice());
    let ghost texts = parts_view(all@);
    let mut found: Vec<NameAlias> = Vec::new();
    let mut i: usize = 0;
    assert(texts.take(0) =~= Seq::<Seq<char>>::empty());
    assert(aliases_view(found@) =~= Seq::<NameAliasSpec>::empty());
    while i < all.len()
        invariant
            i <= all.len(),
            texts == parts_view(all@),
            texts == lines_of(file@),
            name_aliases(texts.take(i as int)) == Ok::<Seq<NameAliasSpec>, FileErrorSpec>(
                aliases_view(found@),
            ),
        decreases all.len() - i,
    {
        let ghost had = aliases_view(found@);
        assert(texts.take(i + 1).drop_last() =~= texts.take(i as int));
        assert(texts.take(i + 1).last() == all@[i as int]@);
        let end = find(all[i].as_slice(), '#');
        if end > 0 {
            let line = slice_of(all[i].as_slice(), 0, end);
            assert(line@ =~= uncommented(all@[i as int]@));
            match parse_name_alias_line(line.as_slice()) {
                Err(error) => {
                    proof {
                        lemma_name_aliases_fail(texts, i as int);
                    }
                    return Err(FileError { line: i + 1, error });
                },
                Ok(record) => {
                    found.push(record);
                    assert(aliases_view(found@) =~= had.push(record@));
                },
            }
        }
        i += 1;
    }
    assert(texts.take(i as int) =~= texts);
    Ok(found)
}

} // verus!
