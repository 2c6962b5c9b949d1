//! The arena: the resolved tree laid out as a flat vector of lists.
//!
//! Every menu level is one [`List`]. A submenu entry holds the index of its
//! list, and every list but the root holds the place of the entry that opens
//! it. Lists are numbered in the order of a depth-first walk that visits a
//! menu before its submenus.

use vstd::prelude::*;
use crate::config;
use crate::config::{ContentSpec, ItemSpec};

verus! {

/// One menu level.
#[derive(Debug, PartialEq, Eq)]
pub struct List<A> {
    /// The entry that opens this list; `None` for the root.
    pub index: Option<ItemIndex>,
    pub items: Vec<Item<A>>,
}

/// The place of one entry in the arena.
#[derive(Clone, Copy, PartialEq, Eq, Structural, Debug)]
pub struct ItemIndex {
    /// The index of the entry's list in the arena.
    pub list: usize,
    /// The index of the entry in its list.
    pub index: usize,
}

/// One visible row.
#[derive(Debug, PartialEq, Eq)]
pub struct Item<A> {
    pub name: String,
    pub name_attributes: Vec<A>,
    pub name_markup: String,
    pub content: Content,
}

#[derive(Debug, PartialEq, Eq)]
pub enum Content {
    /// The text that is copied when the row is chosen.
    Text(String),
    /// The index of the list that the row opens.
    List(usize),
}

/// The mathematical value of a [`Content`].
pub ghost enum RowContent {
    Text(Seq<char>),
    List(int),
}

/// The mathematical value of an [`Item`].
pub ghost struct RowSpec<A> {
    pub name: Seq<char>,
    pub name_attributes: Seq<A>,
    pub name_markup: Seq<char>,
    pub content: RowContent,
}

/// The mathematical value of a [`List`].
pub ghost struct ListSpec<A> {
    pub index: Option<(int, int)>,
    pub items: Seq<RowSpec<A>>,
}

impl View for Content {
    type V = RowContent;

    open spec fn view(&self) -> RowContent {
        match self {
            Content::Text(text) => RowContent::Text(text@),
            Content::List(index) => RowContent::List(*index as int),
        }
    }
}

impl<A> View for Item<A> {
    type V = RowSpec<A>;

    open spec fn view(&self) -> RowSpec<A> {
        RowSpec {
            name: self.name@,
            name_attributes: self.name_attributes@,
            name_markup: self.name_markup@,
            content: self.content@,
        }
    }
}

impl View for ItemIndex {
    type V = (int, int);

    open spec fn view(&self) -> (int, int) {
        (self.list as int, self.index as int)
    }
}

/// The mathematical value of an optional back-reference.
pub open spec fn back_view(index: Option<ItemIndex>) -> Option<(int, int)> {
    match index {
        Some(at) => Some(at@),
        None => None,
    }
}

impl<A> View for List<A> {
    type V = ListSpec<A>;

    open spec fn view(&self) -> ListSpec<A> {
        ListSpec {
            index: back_view(self.index),
            items: Seq::new(self.items@.len(), |i: int| self.items@[i]@),
        }
    }
}

/// The mathematical value of an arena.
pub open spec fn lists_view<A>(lists: Seq<List<A>>) -> Seq<ListSpec<A>> {
    Seq::new(lists.len(), |i: int| lists[i]@)
}

/// The number of lists that the submenus among the first `k` of `items`
/// take up, each with all that is below it.
pub open spec fn spans<A>(items: Seq<ItemSpec<A>>, k: int) -> nat
    decreases items, 1int, k,
{
    if 0 < k <= items.len() {
        spans(items, k - 1) + match items[k - 1].content {
            ContentSpec::Text(_) => 0nat,
            ContentSpec::Items(nested) => arena_len(nested),
        }
    } else {
        0
    }
}

/// The number of lists that a menu takes up in the arena: one for itself and
/// those of its submenus.
pub open spec fn arena_len<A>(items: Seq<ItemSpec<A>>) -> nat
    decreases items, 2int, 0int,
{
    1 + spans(items, items.len() as int)
}

/// The rows of a menu whose list stands at `base`: a leaf keeps its text, a
/// submenu becomes the index at which its list stands.
pub open spec fn row<A>(items: Seq<ItemSpec<A>>, base: int) -> Seq<RowSpec<A>> {
    Seq::new(
        items.len(),
        |k: int|
            RowSpec {
                name: items[k].name,
                name_attributes: items[k].name_attributes,
                name_markup: items[k].name_markup,
                content: match items[k].content {
                    ContentSpec::Text(text) => RowContent::Text(text),
                    ContentSpec::Items(_) => RowContent::List(base + 1 + spans(items, k)),
                },
            },
    )
}

/// The lists of the submenus among the first `k` of `items`, in order, where
/// the list of `items` itself stands at `base`.
pub open spec fn kids<A>(items: Seq<ItemSpec<A>>, base: int, k: int) -> Seq<ListSpec<A>>
    decreases items, 1int, k,
{
    if 0 < k <= items.len() {
        kids(items, base, k - 1) + match items[k - 1].content {
            ContentSpec::Text(_) => Seq::empty(),
            ContentSpec::Items(nested) => layout(
                nested,
                base + 1 + spans(items, k - 1),
                Some((base, k - 1)),
            ),
        }
    } else {
        Seq::empty()
    }
}

/// The arena of a menu whose list stands at `base` and is opened from `back`:
/// its own list first, then the lists of its submenus in order.
pub open spec fn layout<A>(items: Seq<ItemSpec<A>>, base: int, back: Option<(int, int)>) -> Seq<
    ListSpec<A>,
>
    decreases items, 2int, 0int,
{
    seq![ListSpec { index: back, items: row(items, base) }] + kids(
        items,
        base,
        items.len() as int,
    )
}

/// Whether `part`, standing in the arena from index `base` on, is the arena
/// of one menu opened from `back`: every other list in it is opened from an
/// entry of an earlier list of `part`, and every submenu entry points to the
/// later list of `part` that it opens.
pub open spec fn tree_at<A>(part: Seq<ListSpec<A>>, base: int, back: Option<(int, int)>) -> bool {
    &&& part.len() >= 1
    &&& part[0].index == back
    &&& forall|i: int| 0 < i < part.len() ==> #[trigger] opened_within(part, base, i, part[i].index)
    &&& forall|q: int, s: int|
        0 <= q < part.len() && 0 <= s < part[q].items.len() ==> #[trigger] points_within(
            part,
            base,
            q,
            s,
            part[q].items[s].content,
        )
}

/// The back-reference `back` of the list at `base + i` names an entry of an
/// earlier list of `part`, and that entry opens the list.
pub open spec fn opened_within<A>(
    part: Seq<ListSpec<A>>,
    base: int,
    i: int,
    back: Option<(int, int)>,
) -> bool {
    match back {
        Some((p, s)) => {
            &&& base <= p < base + i
            &&& 0 <= s < part[p - base].items.len()
            &&& part[p - base].items[s].content == RowContent::List(base + i)
        },
        None => false,
    }
}

/// If entry `s` of the list at `base + q` opens a list, that list is a later
/// one of `part` and refers back to the entry.
pub open spec fn points_within<A>(
    part: Seq<ListSpec<A>>,
    base: int,
    q: int,
    s: int,
    content: RowContent,
) -> bool {
    match content {
        RowContent::List(c) => {
            &&& base + q < c < base + part.len()
            &&& part[c - base].index == Some((base + q, s))
        },
        RowContent::Text(_) => true,
    }
}

/// Whether `lists` is a whole arena: the arena of one menu, the root, at
/// index 0.
pub open spec fn arena_wf<A>(lists: Seq<ListSpec<A>>) -> bool {
    tree_at(lists, 0, None)
}

/// `kids` and `spans` count the same lists.
pub proof fn lemma_kids_len<A>(items: Seq<ItemSpec<A>>, base: int, k: int)
    ensures
        kids(items, base, k).len() == spans(items, k),
    decreases items, 1int, k,
{
    if 0 < k <= items.len() {
        lemma_kids_len(items, base, k - 1);
        match items[k - 1].content {
            ContentSpec::Text(_) => {},
            ContentSpec::Items(nested) => {
                lemma_layout_len(nested, base + 1 + spans(items, k - 1), Some((base, k - 1)));
            },
        }
    }
}

/// A menu's arena has as many lists as `arena_len` says.
pub proof fn lemma_layout_len<A>(items: Seq<ItemSpec<A>>, base: int, back: Option<(int, int)>)
    ensures
        layout(items, base, back).len() == arena_len(items),
    decreases items, 2int, 0int,
{
    lemma_kids_len(items, base, items.len() as int);
}

/// Appends the arena of `items` to `lists` and returns the index of its first
/// list, which is the list of `items` itself; `index` is the entry that opens
/// it.
pub fn register_items<A>(
    items: Vec<config::Item<A>>,
    lists: &mut Vec<List<A>>,
    index: Option<ItemIndex>,
) -> (list_index: usize)
    ensures
        list_index == old(lists).len(),
        lists_view(final(lists)@) == lists_view(old(lists)@) + layout(
            config::items_view(items@),
            old(lists).len() as int,
            back_view(index),
        ),
    decreases items,
{
    let ghost tree = config::items_view(items@);
    let ghost source = items@;
    let ghost before = lists_view(lists@);
    let list_index = lists.len();
    let ghost base = list_index as int;
    let ghost back = back_view(index);
    let ghost head = ListSpec::<A> { index: back, items: Seq::empty() };
    let first = List { index, items: Vec::new() };
    assert(first@.items =~= Seq::empty());
    lists.push(first);
    assert(lists_view(lists@) =~= before + seq![head] + kids(tree, base, 0));
    let mut rows: Vec<Item<A>> = Vec::new();
    for item in it: items.into_iter()
        invariant
            it.seq() == source,
            tree == config::items_view(source),
            base == before.len(),
            base == list_index,
            back == back_view(index),
            head == (ListSpec::<A> { index: back, items: Seq::empty() }),
            lists_view(lists@) == before + seq![head] + kids(tree, base, it.index() as int),
            rows@.len() == it.index(),
            forall|j: int| 0 <= j < rows@.len() ==> (#[trigger] rows@[j])@ == row(tree, base)[j],
    {
        let ghost k = it.index() as int;
        let ghost so_far = lists_view(lists@);
        assert(item == source[k]);
        assert(tree[k] == item@);
        proof {
            lemma_kids_len(tree, base, k);
        }
        assert(lists@.len() == so_far.len());
        assert(lists@.len() == base + 1 + spans(tree, k));
        let content = match item.content {
            config::Content::Text(text) => {
                assert(kids(tree, base, k + 1) =~= kids(tree, base, k));
                Content::Text(text)
            },
            config::Content::Items(nested) => {
                let at = ItemIndex { list: list_index, index: rows.len() };
                let child = register_items(nested, lists, Some(at));
                assert(kids(tree, base, k + 1) == kids(tree, base, k) + layout(
                    config::items_view(nested@),
                    base + 1 + spans(tree, k),
                    Some((base, k)),
                ));
                assert(lists_view(lists@) =~= before + seq![head] + kids(tree, base, k + 1));
                Content::List(child)
            },
        };
        let next = Item {
            name: item.name,
            name_attributes: item.name_attributes,
            name_markup: item.name_markup,
            content,
        };
        assert(next@ == row(tree, base)[k]);
        rows.push(next);
    }
    let ghost filled = lists@;
    let ghost n = source.len() as int;
    assert(rows@.len() == n);
    assert(filled.len() == lists_view(filled).len());
    assert(lists_view(filled)[base] == head);
    lists[list_index].items = rows;
    proof {
        let after = lists_view(lists@);
        let want = before + layout(tree, base, back);
        assert(lists@.len() == filled.len());
        assert(lists@[base].items == rows);
        assert(lists@[base].index == filled[base].index);
        assert(lists@[base]@.items =~= row(tree, base));
        assert(after.len() == want.len());
        assert forall|i: int| 0 <= i < after.len() implies after[i] == want[i] by {
            if i != base {
                assert(lists@[i] == filled[i]);
                assert(after[i] == lists_view(filled)[i]);
            }
        }
        assert(after =~= want);
    }
    list_index
}

/// What holds of the lists of the first `k` submenus of a menu at `base`,
/// where `part` holds those lists and stands in the arena from `base + 1` on.
spec fn kids_ok<A>(part: Seq<ListSpec<A>>, items: Seq<ItemSpec<A>>, base: int, k: int) -> bool {
    &&& forall|i: int|
        0 <= i < part.len() ==> #[trigger] kid_opened(part, items, base, k, i, part[i].index)
    &&& forall|q: int, s: int|
        0 <= q < part.len() && 0 <= s < part[q].items.len() ==> #[trigger] points_within(
            part,
            base + 1,
            q,
            s,
            part[q].items[s].content,
        )
    &&& forall|s: int| 0 <= s < k ==> #[trigger] kid_placed(part, items, base, s)
}

/// The list at `base + 1 + i` is opened either from entry `s` of the menu
/// itself, one of its first `k`, or from an earlier list of `part`.
spec fn kid_opened<A>(
    part: Seq<ListSpec<A>>,
    items: Seq<ItemSpec<A>>,
    base: int,
    k: int,
    i: int,
    back: Option<(int, int)>,
) -> bool {
    match back {
        Some((p, s)) => {
            ||| p == base && 0 <= s < k && items[s].content is Items && spans(items, s) == i
            ||| opened_within(part, base + 1, i, back)
        },
        None => false,
    }
}

/// If entry `s` of the menu is a submenu, its list stands in `part` where
/// `spans` says, and refers back to the entry.
spec fn kid_placed<A>(part: Seq<ListSpec<A>>, items: Seq<ItemSpec<A>>, base: int, s: int) -> bool {
    items[s].content is Items ==> spans(items, s) < part.len() && part[spans(
        items,
        s,
    ) as int].index == Some((base, s))
}

/// A leaf among the entries adds no list.
proof fn lemma_kids_ok_leaf<A>(part: Seq<ListSpec<A>>, items: Seq<ItemSpec<A>>, base: int, k: int)
    requires
        0 < k <= items.len(),
        items[k - 1].content is Text,
        kids_ok(part, items, base, k - 1),
    ensures
        kids_ok(part, items, base, k),
{
    assert forall|i: int| 0 <= i < part.len() implies #[trigger] kid_opened(
        part,
        items,
        base,
        k,
        i,
        part[i].index,
    ) by {
        assert(kid_opened(part, items, base, k - 1, i, part[i].index));
    }
    assert forall|s: int| 0 <= s < k implies #[trigger] kid_placed(part, items, base, s) by {
        if s < k - 1 {
            assert(kid_placed(part, items, base, s));
        }
    }
}

/// Where the lists of one more submenu follow those of the submenus before
/// it, each list is still opened from where it should be.
proof fn lemma_append_opened<A>(
    done: Seq<ListSpec<A>>,
    sub: Seq<ListSpec<A>>,
    items: Seq<ItemSpec<A>>,
    base: int,
    k: int,
    i: int,
)
    requires
        0 < k <= items.len(),
        items[k - 1].content is Items,
        spans(items, k - 1) == done.len(),
        kids_ok(done, items, base, k - 1),
        tree_at(sub, base + 1 + done.len(), Some((base, k - 1))),
        0 <= i < done.len() + sub.len(),
    ensures
        kid_opened(done + sub, items, base, k, i, (done + sub)[i].index),
{
    let all = done + sub;
    let off = done.len() as int;
    let start = base + 1 + off;
    if i < off {
        assert(all[i] == done[i]);
        assert(kid_opened(done, items, base, k - 1, i, done[i].index));
        match done[i].index {
            Some((p, s)) => {
                if !(p == base && 0 <= s < k - 1 && items[s].content is Items && spans(items, s)
                    == i) {
                    assert(opened_within(done, base + 1, i, done[i].index));
                    assert(all[p - (base + 1)] == done[p - (base + 1)]);
                }
            },
            None => {},
        }
    } else if i == off {
        assert(all[i] == sub[0]);
    } else {
        assert(all[i] == sub[i - off]);
        assert(opened_within(sub, start, i - off, sub[i - off].index));
        match sub[i - off].index {
            Some((p, s)) => {
                assert(all[p - (base + 1)] == sub[p - start]);
            },
            None => {},
        }
    }
}

/// Where the lists of one more submenu follow those of the submenus before
/// it, each submenu entry still points to the list that it opens.
proof fn lemma_append_points<A>(
    done: Seq<ListSpec<A>>,
    sub: Seq<ListSpec<A>>,
    items: Seq<ItemSpec<A>>,
    base: int,
    k: int,
    q: int,
    s: int,
)
    requires
        kids_ok(done, items, base, k - 1),
        tree_at(sub, base + 1 + done.len(), Some((base, k - 1))),
        0 <= q < done.len() + sub.len(),
        0 <= s < (done + sub)[q].items.len(),
    ensures
        points_within(done + sub, base + 1, q, s, (done + sub)[q].items[s].content),
{
    let all = done + sub;
    let off = done.len() as int;
    let start = base + 1 + off;
    if q < off {
        assert(all[q] == done[q]);
        assert(points_within(done, base + 1, q, s, done[q].items[s].content));
        match done[q].items[s].content {
            RowContent::List(c) => {
                assert(all[c - (base + 1)] == done[c - (base + 1)]);
            },
            RowContent::Text(_) => {},
        }
    } else {
        assert(all[q] == sub[q - off]);
        assert(points_within(sub, start, q - off, s, sub[q - off].items[s].content));
        match sub[q - off].items[s].content {
            RowContent::List(c) => {
                assert(all[c - (base + 1)] == sub[c - start]);
            },
            RowContent::Text(_) => {},
        }
    }
}

/// Where the lists of one more submenu follow those of the submenus before
/// it, the list of each submenu stands where `spans` says.
proof fn lemma_append_placed<A>(
    done: Seq<ListSpec<A>>,
    sub: Seq<ListSpec<A>>,
    items: Seq<ItemSpec<A>>,
    base: int,
    k: int,
    s: int,
)
    requires
        0 < k <= items.len(),
        spans(items, k - 1) == done.len(),
        kids_ok(done, items, base, k - 1),
        tree_at(sub, base + 1 + done.len(), Some((base, k - 1))),
        0 <= s < k,
    ensures
        kid_placed(done + sub, items, base, s),
{
    let all = done + sub;
    if s < k - 1 {
        assert(kid_placed(done, items, base, s));
        if items[s].content is Items {
            assert(all[spans(items, s) as int] == done[spans(items, s) as int]);
        }
    } else {
        assert(all[done.len() as int] == sub[0]);
    }
}

proof fn lemma_kids_ok<A>(items: Seq<ItemSpec<A>>, base: int, k: int)
    requires
        0 <= k <= items.len(),
    ensures
        kids_ok(kids(items, base, k), items, base, k),
    decreases items, 1int, k,
{
    let all = kids(items, base, k);
    if k > 0 {
        let done = kids(items, base, k - 1);
        lemma_kids_ok(items, base, k - 1);
        lemma_kids_len(items, base, k - 1);
        match items[k - 1].content {
            ContentSpec::Text(_) => {
                assert(all =~= done);
                lemma_kids_ok_leaf(done, items, base, k);
            },
            ContentSpec::Items(nested) => {
                let start = base + 1 + spans(items, k - 1);
                let sub = layout(nested, start, Some((base, k - 1)));
                lemma_layout_tree(nested, start, Some((base, k - 1)));
                assert(all == done + sub);
                assert forall|i: int| 0 <= i < all.len() implies #[trigger] kid_opened(
                    all,
                    items,
                    base,
                    k,
                    i,
                    all[i].index,
                ) by {
                    lemma_append_opened(done, sub, items, base, k, i);
                }
                assert forall|q: int, s: int|
                    0 <= q < all.len() && 0 <= s < all[q].items.len() implies #[trigger] points_within(
                    all,
                    base + 1,
                    q,
                    s,
                    all[q].items[s].content,
                ) by {
                    lemma_append_points(done, sub, items, base, k, q, s);
                }
                assert forall|s: int| 0 <= s < k implies #[trigger] kid_placed(
                    all,
                    items,
                    base,
                    s,
                ) by {
                    lemma_append_placed(done, sub, items, base, k, s);
                }
            },
        }
    }
}

/// With the menu's own list in front of the lists of its submenus, each of
/// those is opened from within.
proof fn lemma_head_opened<A>(
    head: ListSpec<A>,
    rest: Seq<ListSpec<A>>,
    items: Seq<ItemSpec<A>>,
    base: int,
    i: int,
)
    requires
        head.items == row(items, base),
        kids_ok(rest, items, base, items.len() as int),
        0 < i < 1 + rest.len(),
    ensures
        opened_within(seq![head] + rest, base, i, (seq![head] + rest)[i].index),
{
    let all = seq![head] + rest;
    let n = items.len() as int;
    assert(all[0] == head);
    assert(all[i] == rest[i - 1]);
    assert(kid_opened(rest, items, base, n, i - 1, rest[i - 1].index));
    match rest[i - 1].index {
        Some((p, s)) => {
            if p == base && 0 <= s < n && items[s].content is Items && spans(items, s) == i - 1 {
                assert(head.items[s].content == RowContent::List(base + i));
            } else {
                assert(opened_within(rest, base + 1, i - 1, rest[i - 1].index));
                assert(all[p - base] == rest[p - (base + 1)]);
            }
        },
        None => {},
    }
}

/// With the menu's own list in front of the lists of its submenus, each
/// submenu entry points to the list that it opens.
proof fn lemma_head_points<A>(
    head: ListSpec<A>,
    rest: Seq<ListSpec<A>>,
    items: Seq<ItemSpec<A>>,
    base: int,
    q: int,
    s: int,
)
    requires
        head.items == row(items, base),
        kids_ok(rest, items, base, items.len() as int),
        0 <= q < 1 + rest.len(),
        0 <= s < (seq![head] + rest)[q].items.len(),
    ensures
        points_within(seq![head] + rest, base, q, s, (seq![head] + rest)[q].items[s].content),
{
    let all = seq![head] + rest;
    assert(all[0] == head);
    if q == 0 {
        assert(kid_placed(rest, items, base, s));
        match items[s].content {
            ContentSpec::Text(_) => {},
            ContentSpec::Items(_) => {
                let c = base + 1 + spans(items, s);
                assert(all[c - base] == rest[spans(items, s) as int]);
            },
        }
    } else {
        assert(all[q] == rest[q - 1]);
        assert(points_within(rest, base + 1, q - 1, s, rest[q - 1].items[s].content));
        match rest[q - 1].items[s].content {
            RowContent::List(c) => {
                assert(all[c - base] == rest[c - (base + 1)]);
            },
            RowContent::Text(_) => {},
        }
    }
}

/// The layout of a menu is the arena of that menu.
pub proof fn lemma_layout_tree<A>(items: Seq<ItemSpec<A>>, base: int, back: Option<(int, int)>)
    ensures
        tree_at(layout(items, base, back), base, back),
    decreases items, 2int, 0int,
{
    let head = ListSpec { index: back, items: row(items, base) };
    let rest = kids(items, base, items.len() as int);
    let all = layout(items, base, back);
    assert(all == seq![head] + rest);
    lemma_kids_ok(items, base, items.len() as int);
    assert(all[0] == head);
    assert forall|i: int| 0 < i < all.len() implies #[trigger] opened_within(
        all,
        base,
        i,
        all[i].index,
    ) by {
        lemma_head_opened(head, rest, items, base, i);
    }
    assert forall|q: int, s: int|
        0 <= q < all.len() && 0 <= s < all[q].items.len() implies #[trigger] points_within(
        all,
        base,
        q,
        s,
        all[q].items[s].content,
    ) by {
        lemma_head_points(head, rest, items, base, q, s);
    }
}

/// The list that holds the entry from which list `i` is opened; the root,
/// which nothing opens, stands for itself.
pub open spec fn parent<A>(lists: Seq<ListSpec<A>>, i: int) -> int {
    match lists[i].index {
        Some((p, _)) => p,
        None => i,
    }
}

/// The number of menus above list `i`: 0 for the root, and one more than for
/// the list that holds the entry from which `i` is opened.
pub open spec fn depth<A>(lists: Seq<ListSpec<A>>, i: int) -> nat
    decreases i,
{
    match lists[i].index {
        Some((p, _)) => if 0 <= p < i {
            1 + depth(lists, p)
        } else {
            0
        },
        None => 0,
    }
}

/// The list reached from list `i` by following `steps` back-references; a
/// list without one, the root, is its own ancestor.
pub open spec fn ancestor<A>(lists: Seq<ListSpec<A>>, i: int, steps: nat) -> int
    decreases steps,
{
    if steps == 0 {
        i
    } else {
        match lists[i].index {
            Some((p, _)) => ancestor(lists, p, (steps - 1) as nat),
            None => i,
        }
    }
}

/// The display names, markup included, of the entries that lead from the root
/// to list `i`, the outermost first.
pub open spec fn path<A>(lists: Seq<ListSpec<A>>, i: int) -> Seq<Seq<char>>
    decreases i,
{
    match lists[i].index {
        Some((p, s)) => if 0 <= p < i {
            path(lists, p).push(lists[p].items[s].name_markup)
        } else {
            Seq::empty()
        },
        None => Seq::empty(),
    }
}

/// `names` written one after the other with `separator` between each two.
pub open spec fn join(names: Seq<Seq<char>>, separator: Seq<char>) -> Seq<char>
    decreases names.len(),
{
    if names.len() == 0 {
        Seq::empty()
    } else if names.len() == 1 {
        names[0]
    } else {
        join(names.drop_last(), separator) + separator + names.last()
    }
}

/// In an arena, the root is the one list that nothing opens.
pub proof fn lemma_root_is_unique<A>(lists: Seq<ListSpec<A>>, i: int)
    requires
        arena_wf(lists),
        0 <= i < lists.len(),
    ensures
        lists[i].index is None <==> i == 0,
{
    if i > 0 {
        assert(opened_within(lists, 0, i, lists[i].index));
    }
}

/// In an arena, following the back-references from any list leads to the
/// root in as many steps as the list is deep, and not in fewer.
pub proof fn lemma_chain_reaches_root<A>(lists: Seq<ListSpec<A>>, i: int)
    requires
        arena_wf(lists),
        0 <= i < lists.len(),
    ensures
        ancestor(lists, i, depth(lists, i)) == 0,
        forall|steps: nat| steps < depth(lists, i) ==> 0 < #[trigger] ancestor(lists, i, steps) < lists.len(),
    decreases i,
{
    if i > 0 {
        assert(opened_within(lists, 0, i, lists[i].index));
        let p = parent(lists, i);
        lemma_chain_reaches_root(lists, p);
        assert forall|steps: nat| steps < depth(lists, i) implies 0 < #[trigger] ancestor(
            lists,
            i,
            steps,
        ) < lists.len() by {
            if steps > 0 {
                assert(ancestor(lists, i, steps) == ancestor(lists, p, (steps - 1) as nat));
            }
        }
    }
}

/// In an arena, the path to a list names one entry for each menu above it.
pub proof fn lemma_path_len<A>(lists: Seq<ListSpec<A>>, i: int)
    requires
        arena_wf(lists),
        0 <= i < lists.len(),
    ensures
        path(lists, i).len() == depth(lists, i),
        i == 0 ==> path(lists, i) == Seq::<Seq<char>>::empty(),
    decreases i,
{
    if i > 0 {
        assert(opened_within(lists, 0, i, lists[i].index));
        lemma_path_len(lists, parent(lists, i));
    }
}

} // verus!
