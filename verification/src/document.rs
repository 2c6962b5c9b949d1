//! From a parsed document to a configuration node.
//!
//! A configuration source is first read as a generic document: text,
//! mappings that keep the order and the repetitions of their keys, and
//! lists. This module then tells the reserved key from the display names
//! and each kind of content from the others.
//!
//! In a node the key `extends` holds a list of fragment references; where it
//! occurs more than once the lists follow each other. Every other key is a
//! display name: text under it is a leaf's payload, a mapping is a submenu.
//! A configuration file holds one field, `root`, which is a node.

use vstd::prelude::*;
use crate::config::{
    entries_view, strings_view, EntryContentSpec, EntrySpec, NodeSpec, UnresolvedContent,
    UnresolvedItem, UnresolvedItems,
};
use crate::error::{FragmentError, FragmentErrorSpec};

verus! {

/// A value of a document.
#[derive(Debug, PartialEq, Eq)]
pub enum Value {
    Text(String),
    Mapping(Vec<Pair>),
    List(Vec<Value>),
}

/// One key of a mapping with its value.
#[derive(Debug, PartialEq, Eq)]
pub struct Pair {
    pub key: String,
    pub value: Value,
}

/// Why a document is no configuration node.
#[derive(Debug, PartialEq, Eq)]
pub enum FormatError {
    /// What `extends` holds is no list.
    ExtendsNotList,
    /// A fragment reference is no text.
    ReferenceNotText,
    /// A display name holds a list.
    ListAsContent { name: String },
    /// The file holds a field other than `root`.
    UnknownField { name: String },
    /// The file holds `root` more than once.
    DuplicateRoot,
    /// The file holds no `root`.
    MissingRoot,
    /// What `root` holds is no mapping.
    RootNotMapping,
}

/// The mathematical value of a [`Value`].
pub ghost enum ValueSpec {
    Text(Seq<char>),
    Mapping(Seq<PairSpec>),
    List(Seq<ValueSpec>),
}

/// The mathematical value of a [`Pair`].
pub ghost struct PairSpec {
    pub key: Seq<char>,
    pub value: ValueSpec,
}

/// The mathematical value of a [`FormatError`].
pub ghost enum FormatErrorSpec {
    ExtendsNotList,
    ReferenceNotText,
    ListAsContent { name: Seq<char> },
    UnknownField { name: Seq<char> },
    DuplicateRoot,
    MissingRoot,
    RootNotMapping,
}

/// The mathematical value of a list of values.
pub open spec fn values_view(values: Seq<Value>) -> Seq<ValueSpec>
    decreases values,
{
    Seq::new(
        values.len(),
        |i: int|
            if 0 <= i < values.len() {
                values[i]@
            } else {
                arbitrary()
            },
    )
}

/// The mathematical value of a mapping.
pub open spec fn pairs_view(pairs: Seq<Pair>) -> Seq<PairSpec>
    decreases pairs,
{
    Seq::new(
        pairs.len(),
        |i: int|
            if 0 <= i < pairs.len() {
                pairs[i]@
            } else {
                arbitrary()
            },
    )
}

impl View for Value {
    type V = ValueSpec;

    open spec fn view(&self) -> ValueSpec
        decreases self,
    {
        match self {
            Value::Text(text) => ValueSpec::Text(text@),
            Value::Mapping(pairs) => ValueSpec::Mapping(pairs_view(pairs@)),
            Value::List(values) => ValueSpec::List(values_view(values@)),
        }
    }
}

impl View for Pair {
    type V = PairSpec;

    open spec fn view(&self) -> PairSpec
        decreases self,
    {
        PairSpec { key: self.key@, value: self.value@ }
    }
}

impl View for FormatError {
    type V = FormatErrorSpec;

    open spec fn view(&self) -> FormatErrorSpec {
        match self {
            FormatError::ExtendsNotList => FormatErrorSpec::ExtendsNotList,
            FormatError::ReferenceNotText => FormatErrorSpec::ReferenceNotText,
            FormatError::ListAsContent { name } => FormatErrorSpec::ListAsContent { name: name@ },
            FormatError::UnknownField { name } => FormatErrorSpec::UnknownField { name: name@ },
            FormatError::DuplicateRoot => FormatErrorSpec::DuplicateRoot,
            FormatError::MissingRoot => FormatErrorSpec::MissingRoot,
            FormatError::RootNotMapping => FormatErrorSpec::RootNotMapping,
        }
    }
}

/// The mathematical value of what classifying may give.
pub open spec fn classified_view(found: Result<UnresolvedItems, FormatError>) -> Result<
    NodeSpec,
    FormatErrorSpec,
> {
    match found {
        Ok(node) => Ok(node@),
        Err(error) => Err(error@),
    }
}

/// The fragment references that a list holds, if all it holds is text.
pub open spec fn references(values: Seq<ValueSpec>) -> Result<Seq<Seq<char>>, FormatErrorSpec>
    decreases values.len(),
{
    if values.len() == 0 {
        Ok(Seq::empty())
    } else {
        match references(values.drop_last()) {
            Err(error) => Err(error),
            Ok(found) => match values.last() {
                ValueSpec::Text(reference) => Ok(found.push(reference)),
                _ => Err(FormatErrorSpec::ReferenceNotText),
            },
        }
    }
}

/// The configuration node that a mapping stands for, or what is wrong with
/// the first of its keys that fits none.
pub open spec fn classified(pairs: Seq<PairSpec>) -> Result<NodeSpec, FormatErrorSpec>
    decreases pairs,
{
    if pairs.len() == 0 {
        Ok(NodeSpec { extends: Seq::empty(), direct: Seq::empty() })
    } else {
        match classified(pairs.drop_last()) {
            Err(error) => Err(error),
            Ok(node) => {
                let pair = pairs.last();
                if pair.key == "extends"@ {
                    match pair.value {
                        ValueSpec::List(values) => match references(values) {
                            Err(error) => Err(error),
                            Ok(found) => Ok(NodeSpec { extends: node.extends + found, ..node }),
                        },
                        _ => Err(FormatErrorSpec::ExtendsNotList),
                    }
                } else {
                    match pair.value {
                        ValueSpec::Text(text) => Ok(
                            NodeSpec {
                                direct: node.direct.push(
                                    EntrySpec {
                                        name: pair.key,
                                        content: EntryContentSpec::Text(text),
                                    },
                                ),
                                ..node
                            },
                        ),
                        ValueSpec::Mapping(inner) => match classified(inner) {
                            Err(error) => Err(error),
                            Ok(nested) => Ok(
                                NodeSpec {
                                    direct: node.direct.push(
                                        EntrySpec {
                                            name: pair.key,
                                            content: EntryContentSpec::Items(nested),
                                        },
                                    ),
                                    ..node
                                },
                            ),
                        },
                        ValueSpec::List(_) => Err(
                            FormatErrorSpec::ListAsContent { name: pair.key },
                        ),
                    }
                }
            },
        }
    }
}

/// What is wrong with the first keys stays wrong with more keys after them.
proof fn lemma_classified_fails(pairs: Seq<PairSpec>, i: int)
    requires
        0 <= i < pairs.len(),
        classified(pairs.take(i + 1)) is Err,
    ensures
        classified(pairs) == classified(pairs.take(i + 1)),
    decreases pairs.len(),
{
    if i + 1 < pairs.len() {
        assert(pairs.drop_last().take(i + 1) =~= pairs.take(i + 1));
        lemma_classified_fails(pairs.drop_last(), i);
    } else {
        assert(pairs.take(i + 1) =~= pairs);
    }
}

/// What is wrong with the first references stays wrong with more after them.
proof fn lemma_references_fail(values: Seq<ValueSpec>, i: int)
    requires
        0 <= i < values.len(),
        references(values.take(i + 1)) is Err,
    ensures
        references(values) == references(values.take(i + 1)),
    decreases values.len(),
{
    if i + 1 < values.len() {
        assert(values.drop_last().take(i + 1) =~= values.take(i + 1));
        lemma_references_fail(values.drop_last(), i);
    } else {
        assert(values.take(i + 1) =~= values);
    }
}

/// Whether `key` is the reserved key.
fn is_extends(key: &String) -> (reserved: bool)
    ensures
        reserved == (key@ == "extends"@),
{
    let wanted = "extends".to_owned();
    *key == wanted
}

/// Appends to `extends` the fragment references that `values` hold.
fn add_references(extends: &mut Vec<String>, values: Vec<Value>) -> (done: Result<(), FormatError>)
    ensures
        match references(values_view(values@)) {
            Ok(found) => done is Ok && strings_view(final(extends)@) == strings_view(old(extends)@)
                + found,
            Err(error) => done matches Err(wrong) && wrong@ == error,
        },
{
    let ghost all = values_view(values@);
    let ghost source = values@;
    let ghost had = strings_view(extends@);
    assert(all.take(0) =~= Seq::<ValueSpec>::empty());
    assert(had + Seq::<Seq<char>>::empty() =~= had);
    for value in it: values.into_iter()
        invariant
            it.seq() == source,
            all == values_view(source),
            had == strings_view(old(extends)@),
            references(all.take(it.index() as int)) matches Ok(found) && strings_view(extends@)
                == had + found,
    {
        let ghost k = it.index() as int;
        let ghost found = references(all.take(k))->Ok_0;
        let ghost so_far = strings_view(extends@);
        assert(so_far == had + found);
        assert(all.take(k + 1).drop_last() =~= all.take(k));
        assert(all.take(k + 1).last() == value@);
        match value {
            Value::Text(reference) => {
                extends.push(reference);
                assert(strings_view(extends@) =~= so_far.push(reference@));
                assert(so_far.push(reference@) =~= had + found.push(reference@));
            },
            _ => {
                proof {
                    lemma_references_fail(all, k);
                }
                return Err(FormatError::ReferenceNotText);
            },
        }
    }
    assert(all.take(source.len() as int) =~= all);
    Ok(())
}

/// Reads a mapping as a configuration node.
pub fn classify(pairs: Vec<Pair>) -> (found: Result<UnresolvedItems, FormatError>)
    ensures
        classified_view(found) == classified(pairs_view(pairs@)),
    decreases pairs,
{
    let ghost all = pairs_view(pairs@);
    let ghost source = pairs@;
    let mut extends: Vec<String> = Vec::new();
    let mut direct: Vec<UnresolvedItem> = Vec::new();
    assert(all.take(0) =~= Seq::<PairSpec>::empty());
    assert(strings_view(extends@) =~= Seq::<Seq<char>>::empty());
    assert(entries_view(direct@) =~= Seq::<EntrySpec>::empty());
    for pair in it: pairs.into_iter()
        invariant
            it.seq() == source,
            source == pairs@,
            all == pairs_view(source),
            classified(all.take(it.index() as int)) == Ok::<NodeSpec, FormatErrorSpec>(
                NodeSpec { extends: strings_view(extends@), direct: entries_view(direct@) },
            ),
    {
        let ghost k = it.index() as int;
        let ghost had_direct = entries_view(direct@);
        assert(pair == source[k]);
        assert(all.take(k + 1).drop_last() =~= all.take(k));
        assert(all.take(k + 1).last() == pair@);
        if is_extends(&pair.key) {
            match pair.value {
                Value::List(values) => {
                    match add_references(&mut extends, values) {
                        Ok(()) => {},
                        Err(error) => {
                            proof {
                                lemma_classified_fails(all, k);
                            }
                            return Err(error);
                        },
                    }
                },
                _ => {
                    proof {
                        lemma_classified_fails(all, k);
                    }
                    return Err(FormatError::ExtendsNotList);
                },
            }
        } else {
            match pair.value {
                Value::Text(text) => {
                    let entry = UnresolvedItem {
                        name: pair.key,
                        content: UnresolvedContent::Text(text),
                    };
                    direct.push(entry);
                    assert(entries_view(direct@) =~= had_direct.push(entry@));
                },
                Value::Mapping(inner) => {
                    match classify(inner) {
                        Ok(nested) => {
                            let entry = UnresolvedItem {
                                name: pair.key,
                                content: UnresolvedContent::Items(nested),
                            };
                            direct.push(entry);
                            assert(entries_view(direct@) =~= had_direct.push(entry@));
                        },
                        Err(error) => {
                            proof {
                                lemma_classified_fails(all, k);
                            }
                            return Err(error);
                        },
                    }
                },
                Value::List(_) => {
                    proof {
                        lemma_classified_fails(all, k);
                    }
                    return Err(FormatError::ListAsContent { name: pair.key });
                },
            }
        }
    }
    assert(all.take(source.len() as int) =~= all);
    Ok(UnresolvedItems { extends, direct })
}

/// What the resolver is told of a fragment whose text the parser has read:
/// the node that its mapping stands for, or why there is none. `parsed` is
/// the parser's outcome, a mapping or the parser's message.
pub fn fragment_node(parsed: Result<Vec<Pair>, String>) -> (loaded: Result<
    UnresolvedItems,
    FragmentError,
>)
    ensures
        match parsed {
            Err(message) => loaded matches Err(error) && error@ == FragmentErrorSpec::Malformed(
                message@,
            ),
            Ok(pairs) => match classified(pairs_view(pairs@)) {
                Ok(node) => loaded matches Ok(found) && found@ == node,
                Err(wrong) => loaded matches Err(error) && error@ == FragmentErrorSpec::Format(
                    wrong,
                ),
            },
        },
{
    match parsed {
        Err(message) => Err(FragmentError::Malformed(message)),
        Ok(pairs) => match classify(pairs) {
            Ok(node) => Ok(node),
            Err(error) => Err(FragmentError::Format(error)),
        },
    }
}

/// The root node among the fields of a configuration file, if they hold
/// one, or what is wrong with the first field that is out of place: a field
/// other than `root`, a second `root`, or a `root` that is no node.
pub open spec fn root_among(fields: Seq<PairSpec>) -> Result<Option<NodeSpec>, FormatErrorSpec>
    decreases fields.len(),
{
    if fields.len() == 0 {
        Ok(None)
    } else {
        match root_among(fields.drop_last()) {
            Err(error) => Err(error),
            Ok(found) => {
                let field = fields.last();
                if field.key != "root"@ {
                    Err(FormatErrorSpec::UnknownField { name: field.key })
                } else if found is Some {
                    Err(FormatErrorSpec::DuplicateRoot)
                } else {
                    match field.value {
                        ValueSpec::Mapping(pairs) => match classified(pairs) {
                            Ok(node) => Ok(Some(node)),
                            Err(error) => Err(error),
                        },
                        _ => Err(FormatErrorSpec::RootNotMapping),
                    }
                }
            },
        }
    }
}

/// The root node of a configuration file with the given fields.
pub open spec fn classified_root(fields: Seq<PairSpec>) -> Result<NodeSpec, FormatErrorSpec> {
    match root_among(fields) {
        Err(error) => Err(error),
        Ok(None) => Err(FormatErrorSpec::MissingRoot),
        Ok(Some(node)) => Ok(node),
    }
}

/// What is wrong with the first fields stays wrong with more after them.
proof fn lemma_root_among_fails(fields: Seq<PairSpec>, i: int)
    requires
        0 <= i < fields.len(),
        root_among(fields.take(i + 1)) is Err,
    ensures
        root_among(fields) == root_among(fields.take(i + 1)),
    decreases fields.len(),
{
    if i + 1 < fields.len() {
        assert(fields.drop_last().take(i + 1) =~= fields.take(i + 1));
        lemma_root_among_fails(fields.drop_last(), i);
    } else {
        assert(fields.take(i + 1) =~= fields);
    }
}

/// The mathematical value of a node that may have been found.
pub open spec fn found_view(found: Option<UnresolvedItems>) -> Option<NodeSpec> {
    match found {
        Some(node) => Some(node@),
        None => None,
    }
}

/// Reads the fields of a configuration file: its root node.
pub fn classify_root(fields: Vec<Pair>) -> (found: Result<UnresolvedItems, FormatError>)
    ensures
        classified_view(found) == classified_root(pairs_view(fields@)),
{
    let ghost all = pairs_view(fields@);
    let ghost source = fields@;
    let mut root: Option<UnresolvedItems> = None;
    let wanted = "root".to_owned();
    assert(all.take(0) =~= Seq::<PairSpec>::empty());
    for field in it: fields.into_iter()
        invariant
            it.seq() == source,
            source == fields@,
            all == pairs_view(source),
            wanted@ == "root"@,
            root_among(all.take(it.index() as int)) == Ok::<Option<NodeSpec>, FormatErrorSpec>(
                found_view(root),
            ),
    {
        let ghost k = it.index() as int;
        assert(field == source[k]);
        assert(all.take(k + 1).drop_last() =~= all.take(k));
        assert(all.take(k + 1).last() == field@);
        if field.key != wanted {
            proof {
                lemma_root_among_fails(all, k);
            }
            return Err(FormatError::UnknownField { name: field.key });
        }
        if root.is_some() {
            proof {
                lemma_root_among_fails(all, k);
            }
            return Err(FormatError::DuplicateRoot);
        }
        match field.value {
            Value::Mapping(pairs) => match classify(pairs) {
                Ok(node) => {
                    root = Some(node);
                },
                Err(error) => {
                    proof {
                        lemma_root_among_fails(all, k);
                    }
                    return Err(error);
                },
            },
            _ => {
                proof {
                    lemma_root_among_fails(all, k);
                }
                return Err(FormatError::RootNotMapping);
            },
        }
    }
    assert(all.take(source.len() as int) =~= all);
    match root {
        Some(node) => Ok(node),
        None => Err(FormatError::MissingRoot),
    }
}

} // verus!
