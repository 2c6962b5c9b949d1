//! The emoji list: the emoji of the charts in the order of the ordering
//! file, each with its description, and each followed by its variations.

use vstd::prelude::*;
use vstd::string::StringExecFns;
use crate::config::{
    entries_view, strings_view, EntryContentSpec, EntrySpec, NodeSpec, UnresolvedContent,
    UnresolvedItem, UnresolvedItems,
};
use crate::emoji::{
    emoji_line, emoji_order_line, parse_emoji_line, parse_emoji_order_line, ParseError,
    ParseErrorSpec,
};
use crate::text::{chars_of, lines, lines_of, parts_view, push_char, string_of};

verus! {

/// Why a chart cannot be read: the number of the line, from 1, and what is
/// wrong with it.
#[derive(Debug, PartialEq, Eq)]
pub struct ChartError {
    pub line: usize,
    pub error: ParseError,
}

/// The mathematical value of a [`ChartError`].
pub ghost struct ChartErrorSpec {
    pub line: int,
    pub error: ParseErrorSpec,
}

impl View for ChartError {
    type V = ChartErrorSpec;

    open spec fn view(&self) -> ChartErrorSpec {
        ChartErrorSpec { line: self.line as int, error: self.error@ }
    }
}

/// An emoji of a chart with its description.
#[derive(Debug, PartialEq, Eq)]
pub struct Emoji {
    pub value: String,
    pub description: String,
}

/// The mathematical value of an [`Emoji`].
pub ghost struct EmojiSpec {
    pub value: Seq<char>,
    pub description: Seq<char>,
}

impl View for Emoji {
    type V = EmojiSpec;

    open spec fn view(&self) -> EmojiSpec {
        EmojiSpec { value: self.value@, description: self.description@ }
    }
}

/// The mathematical value of a list of emoji.
pub open spec fn emojis_view(emojis: Seq<Emoji>) -> Seq<EmojiSpec> {
    Seq::new(emojis.len(), |i: int| emojis[i]@)
}

/// The mathematical value of a list of texts.
pub open spec fn texts_view(texts: Seq<String>) -> Seq<Seq<char>> {
    Seq::new(texts.len(), |i: int| texts[i]@)
}

/// The emoji of the lines of an emoji list: one for each line that does not
/// begin with `@`, or the first line that holds none.
pub open spec fn emoji_list(lines: Seq<Seq<char>>) -> Result<Seq<EmojiSpec>, ChartErrorSpec>
    decreases lines.len(),
{
    if lines.len() == 0 {
        Ok(Seq::empty())
    } else {
        match emoji_list(lines.drop_last()) {
            Err(error) => Err(error),
            Ok(found) => {
                let line = lines.last();
                if line.len() > 0 && line[0] == '@' {
                    Ok(found)
                } else {
                    match emoji_line(line) {
                        Err(error) => Err(ChartErrorSpec { line: lines.len() as int, error }),
                        Ok((value, description)) => Ok(
                            found.push(EmojiSpec { value, description }),
                        ),
                    }
                }
            },
        }
    }
}

/// The emoji of the lines of an ordering file: one for each line that is
/// more than a comment, or the first line that holds none.
pub open spec fn emoji_order(lines: Seq<Seq<char>>) -> Result<Seq<Seq<char>>, ChartErrorSpec>
    decreases lines.len(),
{
    if lines.len() == 0 {
        Ok(Seq::empty())
    } else {
        match emoji_order(lines.drop_last()) {
            Err(error) => Err(error),
            Ok(found) => match emoji_order_line(lines.last()) {
                Err(error) => Err(ChartErrorSpec { line: lines.len() as int, error }),
                Ok(None) => Ok(found),
                Ok(Some(value)) => Ok(found.push(value)),
            },
        }
    }
}

proof fn lemma_emoji_list_fails(lines: Seq<Seq<char>>, i: int)
    requires
        0 <= i < lines.len(),
        emoji_list(lines.take(i + 1)) is Err,
    ensures
        emoji_list(lines) == emoji_list(lines.take(i + 1)),
    decreases lines.len(),
{
    if i + 1 < lines.len() {
        assert(lines.drop_last().take(i + 1) =~= lines.take(i + 1));
        lemma_emoji_list_fails(lines.drop_last(), i);
    } else {
        assert(lines.take(i + 1) =~= lines);
    }
}

proof fn lemma_emoji_order_fails(lines: Seq<Seq<char>>, i: int)
    requires
        0 <= i < lines.len(),
        emoji_order(lines.take(i + 1)) is Err,
    ensures
        emoji_order(lines) == emoji_order(lines.take(i + 1)),
    decreases lines.len(),
{
    if i + 1 < lines.len() {
        assert(lines.drop_last().take(i + 1) =~= lines.take(i + 1));
        lemma_emoji_order_fails(lines.drop_last(), i);
    } else {
        assert(lines.take(i + 1) =~= lines);
    }
}

/// Reads the text of an emoji list.
pub fn parse_emoji_list(file: &str) -> (read: Result<Vec<Emoji>, ChartError>)
    ensures
        match emoji_list(lines_of(file@)) {
            Ok(emojis) => read matches Ok(found) && emojis_view(found@) == emojis,
            Err(error) => read matches Err(found) && found@ == error,
        },
{
    let chars = chars_of(file);
    let all = lines(chars.as_slice());
    let ghost texts = parts_view(all@);
    let mut found: Vec<Emoji> = Vec::new();
    let mut i: usize = 0;
    assert(texts.take(0) =~= Seq::<Seq<char>>::empty());
    assert(emojis_view(found@) =~= Seq::<EmojiSpec>::empty());
    while i < all.len()
        invariant
            i <= all.len(),
            texts == parts_view(all@),
            texts == lines_of(file@),
            emoji_list(texts.take(i as int)) == Ok::<Seq<EmojiSpec>, ChartErrorSpec>(
                emojis_view(found@),
            ),
        decreases all.len() - i,
    {
        let ghost had = emojis_view(found@);
        assert(texts.take(i + 1).drop_last() =~= texts.take(i as int));
        assert(texts.take(i + 1).last() == all@[i as int]@);
        let line = &all[i];
        if !(line.len() > 0 && line[0] == '@') {
            let text = string_of(line.as_slice());
            match parse_emoji_line(text.as_str()) {
                Err(error) => {
                    proof {
                        lemma_emoji_list_fails(texts, i as int);
                    }
                    return Err(ChartError { line: i + 1, error });
                },
                Ok((value, description)) => {
                    let emoji = Emoji { value, description: description.to_owned() };
                    found.push(emoji);
                    assert(emojis_view(found@) =~= had.push(emoji@));
                },
            }
        }
        i += 1;
    }
    assert(texts.take(i as int) =~= texts);
    Ok(found)
}

/// Reads the text of an ordering file.
pub fn parse_emoji_order(file: &str) -> (read: Result<Vec<String>, ChartError>)
    ensures
        match emoji_order(lines_of(file@)) {
            Ok(emojis) => read matches Ok(found) && texts_view(found@) == emojis,
            Err(error) => read matches Err(found) && found@ == error,
        },
{
    let chars = chars_of(file);
    let all = lines(chars.as_slice());
    let ghost texts = parts_view(all@);
    let mut found: Vec<String> = Vec::new();
    let mut i: usize = 0;
    assert(texts.take(0) =~= Seq::<Seq<char>>::empty());
    assert(texts_view(found@) =~= Seq::<Seq<char>>::empty());
    while i < all.len()
        invariant
            i <= all.len(),
            texts == parts_view(all@),
            texts == lines_of(file@),
            emoji_order(texts.take(i as int)) == Ok::<Seq<Seq<char>>, ChartErrorSpec>(
                texts_view(found@),
            ),
        decreases all.len() - i,
    {
        let ghost had = texts_view(found@);
        assert(texts.take(i + 1).drop_last() =~= texts.take(i as int));
        assert(texts.take(i + 1).last() == all@[i as int]@);
        let text = string_of(all[i].as_slice());
        match parse_emoji_order_line(text.as_str()) {
            Err(error) => {
                proof {
                    lemma_emoji_order_fails(texts, i as int);
                }
                return Err(ChartError { line: i + 1, error });
            },
            Ok(None) => {},
            Ok(Some(value)) => {
                found.push(value);
                assert(texts_view(found@) =~= had.push(value@));
            },
        }
        i += 1;
    }
    assert(texts.take(i as int) =~= texts);
    Ok(found)
}

/// An emoji in its place in the order.
#[derive(Debug, PartialEq, Eq)]
pub struct Ordered {
    pub emoji: Emoji,
    /// Whether the emoji is a variation of the one before it.
    pub variation: bool,
}

/// The mathematical value of an [`Ordered`].
pub ghost struct OrderedSpec {
    pub emoji: EmojiSpec,
    pub variation: bool,
}

impl View for Ordered {
    type V = OrderedSpec;

    open spec fn view(&self) -> OrderedSpec {
        OrderedSpec { emoji: self.emoji@, variation: self.variation }
    }
}

/// The mathematical value of a list of ordered emoji.
pub open spec fn ordered_view(list: Seq<Ordered>) -> Seq<OrderedSpec> {
    Seq::new(list.len(), |i: int| list[i]@)
}

/// Why the charts do not fit together.
#[derive(Debug, PartialEq, Eq)]
pub enum ListError {
    /// The ordering names an emoji that no list holds, or names it twice.
    NotInList(String),
    /// The lists hold an emoji that the ordering does not name.
    NotInOrdering,
}

/// The mathematical value of a [`ListError`].
pub ghost enum ListErrorSpec {
    NotInList(Seq<char>),
    NotInOrdering,
}

impl View for ListError {
    type V = ListErrorSpec;

    open spec fn view(&self) -> ListErrorSpec {
        match self {
            ListError::NotInList(value) => ListErrorSpec::NotInList(value@),
            ListError::NotInOrdering => ListErrorSpec::NotInOrdering,
        }
    }
}

/// Why no ordered list can be made.
#[derive(Debug, PartialEq, Eq)]
pub enum OrderError {
    /// A line of the ordering file cannot be read.
    Chart(ChartError),
    /// The charts do not fit together.
    List(ListError),
}

/// The mathematical value of an [`OrderError`].
pub ghost enum OrderErrorSpec {
    Chart(ChartErrorSpec),
    List(ListErrorSpec),
}

impl View for OrderError {
    type V = OrderErrorSpec;

    open spec fn view(&self) -> OrderErrorSpec {
        match self {
            OrderError::Chart(error) => OrderErrorSpec::Chart(error@),
            OrderError::List(error) => OrderErrorSpec::List(error@),
        }
    }
}

/// The emoji of the list and of the list of variations together.
pub open spec fn known(emojis: Seq<EmojiSpec>, variations: Seq<EmojiSpec>) -> Seq<OrderedSpec> {
    Seq::new(emojis.len(), |i: int| OrderedSpec { emoji: emojis[i], variation: false })
        + Seq::new(variations.len(), |i: int| OrderedSpec { emoji: variations[i], variation: true })
}

/// The index of the last entry of `table` for the emoji `value`, or -1.
pub open spec fn last_of(table: Seq<OrderedSpec>, value: Seq<char>) -> int
    decreases table.len(),
{
    if table.len() == 0 {
        -1
    } else if table.last().emoji.value == value {
        table.len() - 1
    } else {
        last_of(table.drop_last(), value)
    }
}

/// `table` without its entries for the emoji `value`.
pub open spec fn without(table: Seq<OrderedSpec>, value: Seq<char>) -> Seq<OrderedSpec>
    decreases table.len(),
{
    if table.len() == 0 {
        Seq::empty()
    } else if table.last().emoji.value == value {
        without(table.drop_last(), value)
    } else {
        without(table.drop_last(), value).push(table.last())
    }
}

/// The emoji that the lines of an ordering file name from line number `k`
/// on, each as the last entry of `table` for it says. The lines are taken
/// one by one: the first line that cannot be read, or that names an emoji
/// that `table` does not hold, ends it. Each emoji is named once, and in the
/// end every emoji of `table` has been named.
pub open spec fn in_order(lines: Seq<Seq<char>>, k: int, table: Seq<OrderedSpec>) -> Result<
    Seq<OrderedSpec>,
    OrderErrorSpec,
>
    decreases lines.len() - k,
{
    if 0 <= k < lines.len() {
        match emoji_order_line(lines[k]) {
            Err(error) => Err(OrderErrorSpec::Chart(ChartErrorSpec { line: k + 1, error })),
            Ok(None) => in_order(lines, k + 1, table),
            Ok(Some(value)) => {
                let at = last_of(table, value);
                if at < 0 {
                    Err(OrderErrorSpec::List(ListErrorSpec::NotInList(value)))
                } else {
                    match in_order(lines, k + 1, without(table, value)) {
                        Err(error) => Err(error),
                        Ok(more) => Ok(seq![table[at]] + more),
                    }
                }
            },
        }
    } else if table.len() == 0 {
        Ok(Seq::empty())
    } else {
        Err(OrderErrorSpec::List(ListErrorSpec::NotInOrdering))
    }
}

/// `first`, then `rest`.
pub open spec fn ordered_then(
    first: Seq<OrderedSpec>,
    rest: Result<Seq<OrderedSpec>, OrderErrorSpec>,
) -> Result<Seq<OrderedSpec>, OrderErrorSpec> {
    match rest {
        Ok(more) => Ok(first + more),
        Err(error) => Err(error),
    }
}

proof fn lemma_last_of_bounds(table: Seq<OrderedSpec>, value: Seq<char>)
    ensures
        -1 <= last_of(table, value) < table.len(),
        last_of(table, value) >= 0 ==> table[last_of(table, value)].emoji.value == value,
    decreases table.len(),
{
    if table.len() > 0 && table.last().emoji.value != value {
        lemma_last_of_bounds(table.drop_last(), value);
    }
}

/// Takes the last entry for `value` out of `table`, with every other entry
/// for it.
fn take_out(table: Vec<Ordered>, value: &String) -> (taken: (Option<Ordered>, Vec<Ordered>))
    ensures
        ordered_view(taken.1@) == without(ordered_view(table@), value@),
        match taken.0 {
            Some(entry) => last_of(ordered_view(table@), value@) >= 0 && entry@ == ordered_view(
                table@,
            )[last_of(ordered_view(table@), value@)],
            None => last_of(ordered_view(table@), value@) < 0,
        },
{
    let ghost all = ordered_view(table@);
    let ghost source = table@;
    let mut kept: Vec<Ordered> = Vec::new();
    let mut hit: Option<Ordered> = None;
    assert(all.take(0) =~= Seq::<OrderedSpec>::empty());
    assert(ordered_view(kept@) =~= Seq::<OrderedSpec>::empty());
    for entry in it: table.into_iter()
        invariant
            it.seq() == source,
            all == ordered_view(source),
            ordered_view(kept@) == without(all.take(it.index() as int), value@),
            match hit {
                Some(found) => last_of(all.take(it.index() as int), value@) >= 0 && found@
                    == all[last_of(all.take(it.index() as int), value@)],
                None => last_of(all.take(it.index() as int), value@) < 0,
            },
    {
        let ghost k = it.index() as int;
        let ghost had = ordered_view(kept@);
        assert(all.take(k + 1).drop_last() =~= all.take(k));
        assert(all.take(k + 1).last() == entry@);
        proof {
            lemma_last_of_bounds(all.take(k), value@);
        }
        if entry.emoji.value == *value {
            hit = Some(entry);
        } else {
            kept.push(entry);
            assert(ordered_view(kept@) =~= had.push(entry@));
        }
    }
    assert(all.take(source.len() as int) =~= all);
    (hit, kept)
}

/// Puts the emoji of the list and of the list of variations in the order of
/// the ordering file, whose text is `ordering`. Where an emoji occurs more
/// than once in the lists, its last occurrence counts, a variation before
/// any other.
pub fn order_emojis(emojis: Vec<Emoji>, variations: Vec<Emoji>, ordering: &str) -> (made: Result<
    Vec<Ordered>,
    OrderError,
>)
    ensures
        match in_order(
            lines_of(ordering@),
            0,
            known(emojis_view(emojis@), emojis_view(variations@)),
        ) {
            Ok(list) => made matches Ok(found) && ordered_view(found@) == list,
            Err(error) => made matches Err(found) && found@ == error,
        },
{
    let ghost first = emojis_view(emojis@);
    let ghost second = emojis_view(variations@);
    let mut table: Vec<Ordered> = Vec::new();
    let ghost plain = emojis@;
    for emoji in it: emojis.into_iter()
        invariant
            it.seq() == plain,
            first == emojis_view(plain),
            ordered_view(table@) == known(first, Seq::empty()).take(it.index() as int),
    {
        let ghost had = ordered_view(table@);
        let entry = Ordered { emoji, variation: false };
        table.push(entry);
        assert(ordered_view(table@) =~= had.push(entry@));
        assert(ordered_view(table@) =~= known(first, Seq::empty()).take(it.index() + 1));
    }
    assert(ordered_view(table@) =~= known(first, second).take(first.len() as int));
    let ghost varied = variations@;
    for emoji in it: variations.into_iter()
        invariant
            it.seq() == varied,
            second == emojis_view(varied),
            ordered_view(table@) == known(first, second).take(first.len() + it.index()),
    {
        let ghost had = ordered_view(table@);
        let entry = Ordered { emoji, variation: true };
        table.push(entry);
        assert(ordered_view(table@) =~= had.push(entry@));
        assert(ordered_view(table@) =~= known(first, second).take(first.len() + it.index() + 1));
    }
    assert(ordered_view(table@) =~= known(first, second));
    let chars = chars_of(ordering);
    let all = lines(chars.as_slice());
    let ghost texts = parts_view(all@);
    let ghost whole = in_order(texts, 0, known(first, second));
    let mut found: Vec<Ordered> = Vec::new();
    let mut k: usize = 0;
    proof {
        assert(ordered_view(found@) =~= Seq::<OrderedSpec>::empty());
        match whole {
            Ok(more) => {
                assert(Seq::<OrderedSpec>::empty() + more =~= more);
            },
            Err(_) => {},
        }
    }
    while k < all.len()
        invariant
            k <= all.len(),
            texts == parts_view(all@),
            texts == lines_of(ordering@),
            first == emojis_view(emojis@),
            second == emojis_view(variations@),
            whole == in_order(texts, 0, known(first, second)),
            whole == ordered_then(
                ordered_view(found@),
                in_order(texts, k as int, ordered_view(table@)),
            ),
        decreases all.len() - k,
    {
        let ghost had = ordered_view(found@);
        assert(texts[k as int] == all@[k as int]@);
        let text = string_of(all[k].as_slice());
        match parse_emoji_order_line(text.as_str()) {
            Err(error) => {
                return Err(OrderError::Chart(ChartError { line: k + 1, error }));
            },
            Ok(None) => {},
            Ok(Some(value)) => {
                let (hit, rest) = take_out(table, &value);
                table = rest;
                match hit {
                    None => {
                        return Err(OrderError::List(ListError::NotInList(value)));
                    },
                    Some(entry) => {
                        found.push(entry);
                        proof {
                            assert(ordered_view(found@) =~= had.push(entry@));
                            match in_order(texts, k + 1, ordered_view(table@)) {
                                Ok(more) => {
                                    assert(had + (seq![entry@] + more) =~= had.push(entry@)
                                        + more);
                                },
                                Err(_) => {},
                            }
                        }
                    },
                }
            },
        }
        k += 1;
    }
    if table.len() > 0 {
        return Err(OrderError::List(ListError::NotInOrdering));
    }
    proof {
        assert(ordered_view(table@).len() == 0);
        assert(ordered_view(found@) + Seq::<OrderedSpec>::empty() =~= ordered_view(found@));
    }
    Ok(found)
}

/// The display name of an emoji: the emoji, a tab, and its description with
/// the markup escaped.
pub fn emoji_item(value: String, escaped_description: &str) -> (item: UnresolvedItem)
    ensures
        item@ == (EntrySpec {
            name: value@.push('\t') + escaped_description@,
            content: EntryContentSpec::Text(value@),
        }),
{
    let mut name = value.clone();
    push_char(&mut name, '\t');
    name.append(escaped_description);
    UnresolvedItem { name, content: UnresolvedContent::Text(value) }
}

/// The number of variations in a row in `flags` from `from` on.
pub open spec fn run_of(flags: Seq<bool>, from: int) -> int
    decreases flags.len() - from,
{
    if 0 <= from < flags.len() && flags[from] {
        1 + run_of(flags, from + 1)
    } else {
        0
    }
}

/// The entries of the list for the items from number `k` on, where `flags`
/// tells the variations: an item without variations after it stands for
/// itself; an item with variations is a submenu under its own name that
/// holds the item and then its variations.
pub open spec fn grouped(items: Seq<EntrySpec>, flags: Seq<bool>, k: int) -> Seq<EntrySpec>
    decreases items.len() - k,
{
    if 0 <= k < items.len() {
        let run = run_of(flags, k + 1);
        if run <= 0 || k + 1 + run > items.len() {
            seq![items[k]] + grouped(items, flags, k + 1)
        } else {
            seq![
                EntrySpec {
                    name: items[k].name,
                    content: EntryContentSpec::Items(
                        NodeSpec {
                            extends: Seq::empty(),
                            direct: items.subrange(k, k + 1 + run),
                        },
                    ),
                },
            ] + grouped(items, flags, k + 1 + run)
        }
    } else {
        Seq::empty()
    }
}

proof fn lemma_run_of_bounds(flags: Seq<bool>, from: int)
    requires
        0 <= from <= flags.len(),
    ensures
        0 <= run_of(flags, from) <= flags.len() - from,
    decreases flags.len() - from,
{
    if from < flags.len() && flags[from] {
        lemma_run_of_bounds(flags, from + 1);
    }
}

/// Puts each item that has variations after it into a submenu with them.
/// `flags` tells for each item whether it is a variation of the one before.
pub fn group_variations(items: Vec<UnresolvedItem>, flags: &Vec<bool>) -> (list: Vec<
    UnresolvedItem,
>)
    requires
        flags@.len() == items@.len(),
        items@.len() > 0 ==> !flags@[0],
    ensures
        entries_view(list@) == grouped(entries_view(items@), flags@, 0),
{
    let ghost all = entries_view(items@);
    let ghost source = items@;
    let ghost marks = flags@;
    let mut list: Vec<UnresolvedItem> = Vec::new();
    let mut group: Vec<UnresolvedItem> = Vec::new();
    let ghost mut start: int = 0;
    let mut i: usize = 0;
    assert(source.len() == items.len());
    proof {
        assert(entries_view(list@) =~= Seq::<EntrySpec>::empty());
        assert(Seq::<EntrySpec>::empty() + grouped(all, marks, 0) =~= grouped(all, marks, 0));
        assert(entries_view(group@) =~= all.subrange(0, 0));
    }
    for item in it: items.into_iter()
        invariant
            it.seq() == source,
            all == entries_view(source),
            marks == flags@,
            marks.len() == source.len(),
            source.len() <= usize::MAX,
            i == it.index(),
            0 <= start <= it.index(),
            entries_view(group@) == all.subrange(start, it.index() as int),
            start < it.index() ==> run_of(marks, start + 1) == (it.index() - start - 1) + run_of(
                marks,
                it.index() as int,
            ),
            grouped(all, marks, 0) == entries_view(list@) + grouped(all, marks, start),
    {
        let ghost k = it.index() as int;
        let ghost had = entries_view(list@);
        let ghost held = entries_view(group@);
        assert(all[k] == item@);
        assert(k < source.len());
        if group.len() > 0 && !flags[i] {
            proof {
                assert(held.len() == group@.len());
                assert(start < k);
                lemma_run_of_bounds(marks, start + 1);
                assert(run_of(marks, k) == 0);
                assert(run_of(marks, start + 1) == k - start - 1);
            }
            let closed = close_group(group);
            proof {
                assert(held =~= all.subrange(start, start + 1 + run_of(marks, start + 1)));
                assert(held[0] == all[start]);
            }
            list.push(closed);
            group = Vec::new();
            proof {
                assert(entries_view(list@) =~= had.push(closed@));
                assert(grouped(all, marks, start) == seq![closed@] + grouped(all, marks, k));
                assert(had + (seq![closed@] + grouped(all, marks, k)) =~= had.push(closed@)
                    + grouped(all, marks, k));
                start = k;
                assert(entries_view(group@) =~= all.subrange(start, k));
            }
        }
        let ghost opened = entries_view(group@);
        proof {
            if group@.len() == 0 {
                start = k;
                assert(opened =~= all.subrange(start, k));
            }
        }
        group.push(item);
        proof {
            assert(entries_view(group@) =~= opened.push(item@));
            assert(entries_view(group@) =~= all.subrange(start, k + 1));
            if start < k {
                assert(marks[k]);
            }
        }
        i += 1;
    }
    if group.len() > 0 {
        let ghost had = entries_view(list@);
        let ghost held = entries_view(group@);
        let ghost n = source.len() as int;
        proof {
            assert(held.len() == group@.len());
            assert(start < n);
            lemma_run_of_bounds(marks, start + 1);
            assert(run_of(marks, n) == 0);
            if start + 1 < n {
                assert(run_of(marks, start + 1) == n - start - 1);
            } else {
                assert(run_of(marks, start + 1) == 0);
            }
        }
        let closed = close_group(group);
        proof {
            assert(held =~= all.subrange(start, start + 1 + run_of(marks, start + 1)));
            assert(held[0] == all[start]);
            assert(grouped(all, marks, n) =~= Seq::<EntrySpec>::empty());
            assert(grouped(all, marks, start) =~= seq![closed@]);
        }
        list.push(closed);
        assert(entries_view(list@) =~= had.push(closed@));
    } else {
        assert(grouped(all, marks, start) =~= Seq::<EntrySpec>::empty());
        assert(entries_view(list@) + Seq::<EntrySpec>::empty() =~= entries_view(list@));
    }
    list
}

/// The entry for an item together with its variations: the item itself where
/// it is alone, else a submenu under its name.
fn close_group(group: Vec<UnresolvedItem>) -> (entry: UnresolvedItem)
    requires
        group@.len() > 0,
    ensures
        entry@ == if group@.len() == 1 {
            entries_view(group@)[0]
        } else {
            EntrySpec {
                name: entries_view(group@)[0].name,
                content: EntryContentSpec::Items(
                    NodeSpec { extends: Seq::empty(), direct: entries_view(group@) },
                ),
            }
        },
{
    let mut group = group;
    if group.len() == 1 {
        let only = group.pop().unwrap();
        only
    } else {
        let name = group[0].name.clone();
        let extends: Vec<String> = Vec::new();
        assert(strings_view(extends@) =~= Seq::<Seq<char>>::empty());
        UnresolvedItem {
            name,
            content: UnresolvedContent::Items(UnresolvedItems { extends, direct: group }),
        }
    }
}

} // verus!
