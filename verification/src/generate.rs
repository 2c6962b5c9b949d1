//! The list of code points: one entry for each named code point of the
//! character database, with its corrections applied and its other names
//! beside it.

use vstd::prelude::*;
use vstd::string::{StrSliceExecFns, StringExecFns};
use crate::codepoint::{printable, CodePoint};
use crate::config::{
    entries_view, strings_view, EntryContentSpec, EntrySpec, UnresolvedContent, UnresolvedItem,
    UnresolvedItems,
};
use crate::text::{char_from_u32, is_scalar, push_char, to_upper_hex, upper_hex, zero_padded};
use crate::ucd::{
    aliases_view, data_view, AliasType, NameAlias, NameAliasSpec, UnicodeDataLine,
    UnicodeDataSpec,
};

verus! {

/// What `str::escape_default` makes of a text.
pub uninterp spec fn default_escaped(text: Seq<char>) -> Seq<char>;

/// Calls `str::escape_default`, which writes a text as it would stand in a
/// string literal; the same text gives the same result every time, and the
/// contract only gives that result its name.
#[verifier::external_body]
fn escape_default(text: &str) -> (escaped: String)
    ensures
        escaped@ == default_escaped(text@),
{
    text.escape_default().to_string()
}

/// One code point to list: its label before markup is escaped, and its
/// other names, with `" | "` between each two.
#[derive(Debug, PartialEq, Eq)]
pub struct Described {
    pub code_point: CodePoint,
    pub unescaped: String,
    pub alternates: String,
}

/// Why no list can be made.
#[derive(Clone, Copy, Debug, PartialEq, Eq, Structural)]
pub enum GenerateError {
    /// An alias stands before this code point and belongs to none.
    AliasWithoutCodePoint(CodePoint),
}

/// The mathematical value of a [`Described`].
pub ghost struct DescribedSpec {
    pub code_point: CodePoint,
    pub unescaped: Seq<char>,
    pub alternates: Seq<char>,
}

impl View for Described {
    type V = DescribedSpec;

    open spec fn view(&self) -> DescribedSpec {
        DescribedSpec {
            code_point: self.code_point,
            unescaped: self.unescaped@,
            alternates: self.alternates@,
        }
    }
}

/// The mathematical value of a list of entries.
pub open spec fn described_view(entries: Seq<Described>) -> Seq<DescribedSpec> {
    Seq::new(entries.len(), |i: int| entries[i]@)
}

/// The name and the other names of a code point after the aliases from
/// `from` on that belong to it: a correction, a control name or a figment
/// takes the place of the name, any other alias joins the other names.
/// Also the index of the first alias that does not belong to the code point.
pub open spec fn absorbed(
    aliases: Seq<NameAliasSpec>,
    from: int,
    code_point: CodePoint,
    name: Seq<char>,
    alternates: Seq<char>,
) -> (int, Seq<char>, Seq<char>)
    decreases aliases.len() - from,
{
    if 0 <= from < aliases.len() && aliases[from].code_point == code_point {
        let alias = aliases[from];
        match alias.ty {
            AliasType::Alternate | AliasType::Abbreviation => absorbed(
                aliases,
                from + 1,
                code_point,
                name,
                if alternates.len() == 0 {
                    alias.value
                } else {
                    alternates + " | "@ + alias.value
                },
            ),
            _ => absorbed(aliases, from + 1, code_point, alias.value, alternates),
        }
    } else {
        (from, name, alternates)
    }
}

/// The character shown for a code point: its own, or a space where it has
/// none that can be shown.
pub open spec fn shown(code_point: CodePoint) -> char {
    match printable(code_point.0) {
        Some(c) => c,
        None => ' ',
    }
}

/// A code point in hexadecimal, with four digits at least.
pub open spec fn hex4(code_point: CodePoint) -> Seq<char> {
    zero_padded(upper_hex(code_point.0 as nat), 4)
}

/// The label of a code point: `U+` and its number, its character, and its
/// name, with a tab between each two.
pub open spec fn label(code_point: CodePoint, name: Seq<char>) -> Seq<char> {
    "U+"@ + hex4(code_point) + seq!['\t', shown(code_point), '\t'] + name
}

/// The entries for the lines of `data` from number `k` on, with the aliases
/// from `from` on. A line whose name, once corrected, begins with `<` gives
/// no entry. An alias for a code point below that of the line at hand
/// belongs to no line.
pub open spec fn described(
    data: Seq<UnicodeDataSpec>,
    k: int,
    aliases: Seq<NameAliasSpec>,
    from: int,
) -> Result<Seq<DescribedSpec>, GenerateError>
    decreases data.len() - k,
{
    if 0 <= k < data.len() {
        let line = data[k];
        if 0 <= from < aliases.len() && aliases[from].code_point.0 < line.code_point.0 {
            Err(GenerateError::AliasWithoutCodePoint(line.code_point))
        } else {
            let (next, name, alternates) = absorbed(
                aliases,
                from,
                line.code_point,
                line.name,
                Seq::empty(),
            );
            let rest = described(data, k + 1, aliases, next);
            if name.len() > 0 && name[0] == '<' {
                rest
            } else {
                match rest {
                    Err(error) => Err(error),
                    Ok(more) => Ok(
                        seq![
                            DescribedSpec {
                                code_point: line.code_point,
                                unescaped: label(line.code_point, name),
                                alternates,
                            },
                        ] + more,
                    ),
                }
            }
        }
    } else {
        Ok(Seq::empty())
    }
}

/// `entries`, then `rest`.
pub open spec fn entries_then(
    entries: Seq<DescribedSpec>,
    rest: Result<Seq<DescribedSpec>, GenerateError>,
) -> Result<Seq<DescribedSpec>, GenerateError> {
    match rest {
        Ok(more) => Ok(entries + more),
        Err(error) => Err(error),
    }
}

/// The label of a code point.
fn label_of(code_point: CodePoint, name: &str) -> (text: String)
    ensures
        text@ == label(code_point, name@),
{
    let mut text = "U+".to_owned();
    text.append(to_upper_hex(code_point.0, 4).as_str());
    let ghost start = text@;
    push_char(&mut text, '\t');
    push_char(
        &mut text,
        match code_point.as_printable() {
            Some(c) => c,
            None => ' ',
        },
    );
    push_char(&mut text, '\t');
    assert(text@ =~= start + seq!['\t', shown(code_point), '\t']);
    text.append(name);
    text
}

/// Makes the entries of the code point list from the lines of
/// `UnicodeData.txt` and of `NameAliases.txt`, both in the order of their
/// code points.
pub fn generate_codepoints(data: &Vec<UnicodeDataLine>, aliases: &Vec<NameAlias>) -> (made: Result<
    Vec<Described>,
    GenerateError,
>)
    ensures
        match described(data_view(data@), 0, aliases_view(aliases@), 0) {
            Ok(entries) => made matches Ok(found) && described_view(found@) == entries,
            Err(error) => made == Err::<Vec<Described>, GenerateError>(error),
        },
{
    let ghost lines = data_view(data@);
    let ghost others = aliases_view(aliases@);
    let ghost whole = described(lines, 0, others, 0);
    let mut found: Vec<Described> = Vec::new();
    let mut from: usize = 0;
    let mut k: usize = 0;
    assert(described_view(found@) =~= Seq::<DescribedSpec>::empty());
    proof {
        match described(lines, 0, others, 0) {
            Ok(more) => {
                assert(Seq::<DescribedSpec>::empty() + more =~= more);
            },
            Err(_) => {},
        }
    }
    while k < data.len()
        invariant
            k <= data.len(),
            from <= aliases.len(),
            lines == data_view(data@),
            others == aliases_view(aliases@),
            whole == described(lines, 0, others, 0),
            whole == entries_then(
                described_view(found@),
                described(lines, k as int, others, from as int),
            ),
        decreases data.len() - k,
    {
        let line = &data[k];
        assert(lines[k as int] == line@);
        if from < aliases.len() {
            assert(others[from as int] == aliases@[from as int]@);
            if aliases[from].code_point.0 < line.code_point.0 {
                return Err(GenerateError::AliasWithoutCodePoint(line.code_point));
            }
        }
        let ghost start = from as int;
        let mut name = line.name.clone();
        let mut alternates = String::new();
        while from < aliases.len() && aliases[from].code_point.0 == line.code_point.0
            invariant
                from <= aliases.len(),
                others == aliases_view(aliases@),
                absorbed(others, start, line.code_point, line.name@, Seq::empty()) == absorbed(
                    others,
                    from as int,
                    line.code_point,
                    name@,
                    alternates@,
                ),
            decreases aliases.len() - from,
        {
            let alias = &aliases[from];
            assert(others[from as int] == alias@);
            match alias.ty {
                AliasType::Alternate | AliasType::Abbreviation => {
                    if !alternates.as_str().is_empty() {
                        alternates.append(" | ");
                    }
                    alternates.append(alias.value.as_str());
                },
                _ => {
                    name = alias.value.clone();
                },
            }
            from += 1;
        }
        proof {
            if from < aliases.len() {
                assert(others[from as int] == aliases@[from as int]@);
            }
        }
        let ghost rest = described(lines, k + 1, others, from as int);
        if name.as_str().is_empty() || name.as_str().get_char(0) != '<' {
            let ghost had = described_view(found@);
            let entry = Described {
                code_point: line.code_point,
                unescaped: label_of(line.code_point, name.as_str()),
                alternates,
            };
            found.push(entry);
            proof {
                assert(described_view(found@) =~= had.push(entry@));
                match rest {
                    Ok(more) => {
                        assert(had + (seq![entry@] + more) =~= had.push(entry@) + more);
                    },
                    Err(_) => {},
                }
            }
        }
        k += 1;
    }
    proof {
        assert(described_view(found@) + Seq::<DescribedSpec>::empty() =~= described_view(found@));
    }
    Ok(found)
}

/// A row of the list as it is displayed: the label, and the other names in
/// small print where there are any. Both are given with their markup
/// already escaped.
pub open spec fn displayed(escaped: Seq<char>, escaped_alternates: Seq<char>) -> Seq<char> {
    if escaped_alternates.len() == 0 {
        escaped
    } else {
        escaped + " (<small>"@ + escaped_alternates + "</small>)"@
    }
}

/// A row of the list as it is displayed.
pub fn display_name(escaped: &str, escaped_alternates: &str) -> (name: String)
    ensures
        name@ == displayed(escaped@, escaped_alternates@),
{
    let mut name = escaped.to_owned();
    if !escaped_alternates.is_empty() {
        name.append(" (<small>");
        name.append(escaped_alternates);
        name.append("</small>)");
    }
    name
}

/// One row of the list, ready to be written.
#[derive(Debug, PartialEq, Eq)]
pub struct Row {
    /// The display name, with its markup.
    pub name: String,
    pub code_point: CodePoint,
}

/// The line of the list's file for one row, given its name as it stands in
/// a string literal: a tab, the name in quotes, a colon, and the code point
/// as an escape in quotes.
pub open spec fn row_text_of(escaped_name: Seq<char>, code_point: CodePoint) -> Seq<char> {
    "\t\""@ + escaped_name + "\": \"\\u{"@ + hex4(code_point) + "}\",\n"@
}

/// The line of the list's file for one row.
pub open spec fn row_line(name: Seq<char>, code_point: CodePoint) -> Seq<char> {
    row_text_of(default_escaped(name), code_point)
}

/// The lines of the list's file for the first `count` rows.
pub open spec fn row_lines(rows: Seq<Row>, count: int) -> Seq<char>
    decreases count,
{
    if 0 < count <= rows.len() {
        row_lines(rows, count - 1) + row_line(rows[count - 1].name@, rows[count - 1].code_point)
    } else {
        Seq::empty()
    }
}

/// The text of the list's file: one line for each row, between braces.
pub open spec fn list_text(rows: Seq<Row>) -> Seq<char> {
    "{\n"@ + row_lines(rows, rows.len() as int) + "}\n"@
}

/// The line of the list's file for one row, given its name as it stands in
/// a string literal.
pub fn row_text(escaped_name: &str, code_point: CodePoint) -> (text: String)
    ensures
        text@ == row_text_of(escaped_name@, code_point),
{
    let mut text = "\t\"".to_owned();
    text.append(escaped_name);
    text.append("\": \"\\u{");
    text.append(to_upper_hex(code_point.0, 4).as_str());
    text.append("}\",\n");
    text
}

/// Writes the text of the list's file.
pub fn write_list(rows: &Vec<Row>) -> (text: String)
    ensures
        text@ == list_text(rows@),
{
    let mut text = "{\n".to_owned();
    let mut i: usize = 0;
    assert(text@ =~= "{\n"@ + row_lines(rows@, 0));
    while i < rows.len()
        invariant
            i <= rows.len(),
            text@ == "{\n"@ + row_lines(rows@, i as int),
        decreases rows.len() - i,
    {
        let ghost had = text@;
        let row = &rows[i];
        let escaped = escape_default(row.name.as_str());
        text.append(row_text(escaped.as_str(), row.code_point).as_str());
        i += 1;
        assert(text@ =~= "{\n"@ + row_lines(rows@, i as int));
    }
    text.append("}\n");
    text
}

/// The entries for the first `count` rows, as a configuration node lists
/// them: one for each row whose code point is a scalar value, under the
/// row's name, with the character as the text to copy.
pub open spec fn copied_rows(rows: Seq<Row>, count: int) -> Seq<EntrySpec>
    decreases count,
{
    if 0 < count <= rows.len() {
        let row = rows[count - 1];
        if is_scalar(row.code_point.0) {
            copied_rows(rows, count - 1).push(
                EntrySpec {
                    name: row.name@,
                    content: EntryContentSpec::Text(seq![row.code_point.0 as char]),
                },
            )
        } else {
            copied_rows(rows, count - 1)
        }
    } else {
        Seq::empty()
    }
}

/// The configuration node of the code point list: each row copies its
/// character, and a row whose code point has none is left out.
pub fn rows_to_items(rows: Vec<Row>) -> (node: UnresolvedItems)
    ensures
        node@.extends == Seq::<Seq<char>>::empty(),
        node@.direct == copied_rows(rows@, rows@.len() as int),
{
    let ghost source = rows@;
    let mut direct: Vec<UnresolvedItem> = Vec::new();
    assert(entries_view(direct@) =~= copied_rows(source, 0));
    for row in it: rows.into_iter()
        invariant
            it.seq() == source,
            entries_view(direct@) == copied_rows(source, it.index() as int),
    {
        let ghost had = entries_view(direct@);
        assert(row == source[it.index() as int]);
        match char_from_u32(row.code_point.0) {
            Some(c) => {
                let mut text = String::new();
                push_char(&mut text, c);
                assert(text@ =~= seq![c]);
                let entry = UnresolvedItem { name: row.name, content: UnresolvedContent::Text(text) };
                direct.push(entry);
                assert(entries_view(direct@) =~= had.push(entry@));
            },
            None => {},
        }
    }
    let extends: Vec<String> = Vec::new();
    assert(strings_view(extends@) =~= Seq::<Seq<char>>::empty());
    UnresolvedItems { extends, direct }
}

} // verus!
