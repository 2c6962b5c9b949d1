//! The configuration tree, before and after resolution.
//!
//! A configuration source is an ordered mapping from display names to either
//! a text payload or a nested mapping. A node may also name fragments to
//! merge in after its own entries. Resolution turns such a node into an
//! ordered list of items whose display names have been parsed for markup.

use vstd::prelude::*;

verus! {

/// One node of a configuration source: the entries that it lists directly and
/// the fragments that it extends, both in source order.
#[derive(Debug, PartialEq, Eq)]
pub struct UnresolvedItems {
    pub extends: Vec<String>,
    pub direct: Vec<UnresolvedItem>,
}

/// One directly listed entry: its display name, markup included, and what it
/// stands for.
#[derive(Debug, PartialEq, Eq)]
pub struct UnresolvedItem {
    pub name: String,
    pub content: UnresolvedContent,
}

#[derive(Debug, PartialEq, Eq)]
pub enum UnresolvedContent {
    /// A leaf: the text that is copied when the entry is chosen.
    Text(String),
    /// A submenu.
    Items(UnresolvedItems),
}

/// The mathematical value of an [`UnresolvedItems`].
pub ghost struct NodeSpec {
    pub extends: Seq<Seq<char>>,
    pub direct: Seq<EntrySpec>,
}

/// The mathematical value of an [`UnresolvedItem`].
pub ghost struct EntrySpec {
    pub name: Seq<char>,
    pub content: EntryContentSpec,
}

/// The mathematical value of an [`UnresolvedContent`].
pub ghost enum EntryContentSpec {
    Text(Seq<char>),
    Items(NodeSpec),
}

/// The mathematical value of a list of strings.
pub open spec fn strings_view(strings: Seq<String>) -> Seq<Seq<char>> {
    Seq::new(strings.len(), |i: int| strings[i]@)
}

/// The mathematical value of a list of entries.
pub open spec fn entries_view(entries: Seq<UnresolvedItem>) -> Seq<EntrySpec>
    decreases entries,
{
    Seq::new(
        entries.len(),
        |i: int|
            if 0 <= i < entries.len() {
                entries[i]@
            } else {
                arbitrary()
            },
    )
}

impl View for UnresolvedItems {
    type V = NodeSpec;

    open spec fn view(&self) -> NodeSpec
        decreases self,
    {
        NodeSpec { extends: strings_view(self.extends@), direct: entries_view(self.direct@) }
    }
}

impl View for UnresolvedItem {
    type V = EntrySpec;

    open spec fn view(&self) -> EntrySpec
        decreases self,
    {
        EntrySpec { name: self.name@, content: self.content@ }
    }
}

impl View for UnresolvedContent {
    type V = EntryContentSpec;

    open spec fn view(&self) -> EntryContentSpec
        decreases self,
    {
        match self {
            UnresolvedContent::Text(text) => EntryContentSpec::Text(text@),
            UnresolvedContent::Items(items) => EntryContentSpec::Items(items@),
        }
    }
}

/// A resolved configuration: the items of the root menu, in display order.
#[derive(Debug, PartialEq, Eq)]
pub struct Config<A> {
    pub root: Vec<Item<A>>,
}

/// One resolved entry. `A` is the type of a style span as the host's markup
/// engine gives it; the library carries such values and never looks inside.
#[derive(Debug, PartialEq, Eq)]
pub struct Item<A> {
    /// The display name with the markup taken out.
    pub name: String,
    /// The style spans that the markup stood for.
    pub name_attributes: Vec<A>,
    /// The display name as the source wrote it.
    pub name_markup: String,
    pub content: Content<A>,
}

#[derive(Debug, PartialEq, Eq)]
pub enum Content<A> {
    Text(String),
    Items(Vec<Item<A>>),
}

/// The mathematical value of an [`Item`].
pub ghost struct ItemSpec<A> {
    pub name: Seq<char>,
    pub name_attributes: Seq<A>,
    pub name_markup: Seq<char>,
    pub content: ContentSpec<A>,
}

/// The mathematical value of a [`Content`].
pub ghost enum ContentSpec<A> {
    Text(Seq<char>),
    Items(Seq<ItemSpec<A>>),
}

/// The mathematical value of a list of items.
pub open spec fn items_view<A>(items: Seq<Item<A>>) -> Seq<ItemSpec<A>>
    decreases items,
{
    Seq::new(
        items.len(),
        |i: int|
            if 0 <= i < items.len() {
                items[i]@
            } else {
                arbitrary()
            },
    )
}

impl<A> View for Item<A> {
    type V = ItemSpec<A>;

    open spec fn view(&self) -> ItemSpec<A>
        decreases self,
    {
        ItemSpec {
            name: self.name@,
            name_attributes: self.name_attributes@,
            name_markup: self.name_markup@,
            content: self.content@,
        }
    }
}

impl<A> View for Content<A> {
    type V = ContentSpec<A>;

    open spec fn view(&self) -> ContentSpec<A>
        decreases self,
    {
        match self {
            Content::Text(text) => ContentSpec::Text(text@),
            Content::Items(items) => ContentSpec::Items(items_view(items@)),
        }
    }
}

impl<A> View for Config<A> {
    type V = Seq<ItemSpec<A>>;

    open spec fn view(&self) -> Seq<ItemSpec<A>> {
        items_view(self.root@)
    }
}

} // verus!
