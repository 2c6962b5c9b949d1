//! The navigation engine: an arena and the index of the list that is shown.

use vstd::prelude::*;
use vstd::string::StringExecFns;
use crate::arena::{
    arena_wf, depth, join, layout, lemma_layout_tree, lemma_path_len, lists_view, opened_within, path,
    points_within, register_items, Content, Item, List, ListSpec, RowContent,
};
use crate::config::Config;

verus! {

/// What the user did, as the host reports it.
#[derive(Clone, Copy, Debug)]
#[allow(inconsistent_fields)]
pub enum Event {
    /// The user cancelled.
    Cancel { selected: Option<usize> },
    /// The user accepted the selected row.
    Accept { alt: bool, selected: usize },
    /// The user entered text that is no row.
    CustomInput { alt: bool, selected: Option<usize> },
    /// The user asked for the selected row to be completed into the input.
    Complete { selected: Option<usize> },
    /// The user asked for the selected row to be deleted.
    DeleteEntry { selected: usize },
    /// The user ran a custom command.
    CustomCommand { number: u8, selected: Option<usize> },
}

/// What the host is to do next.
#[derive(Clone, Copy, PartialEq, Eq, Structural, Debug)]
pub enum Action {
    /// Show the active list again.
    Reload,
    /// Close the picker.
    Exit,
}

/// What an event leads to: an action for the host, or a text to put on the
/// clipboard first.
#[derive(Debug, PartialEq, Eq)]
pub enum Reaction {
    Act(Action),
    /// Copy the text, then do as [`copied`] says of the outcome.
    Copy(String),
}

/// The action that follows an attempt to copy: the picker closes when the
/// text was copied and stays open when it was not.
pub fn copied(succeeded: bool) -> (action: Action)
    ensures
        action == if succeeded {
            Action::Exit
        } else {
            Action::Reload
        },
{
    if succeeded {
        Action::Exit
    } else {
        Action::Reload
    }
}

/// The views of `names` in the opposite order: names are collected from the
/// shown list outward and displayed from the root inward.
spec fn outward(names: Seq<&str>) -> Seq<Seq<char>> {
    Seq::new(names.len(), |j: int| names[names.len() - 1 - j]@)
}

/// The picker's state: the arena, which never changes, and the list that is
/// shown.
pub struct Unicode<A> {
    lists: Vec<List<A>>,
    active_list: usize,
}

impl<A> Unicode<A> {
    /// The arena.
    pub closed spec fn arena(&self) -> Seq<ListSpec<A>> {
        lists_view(self.lists@)
    }

    /// The index of the list that is shown.
    pub closed spec fn active(&self) -> int {
        self.active_list as int
    }

    /// The list that is shown.
    pub open spec fn shown(&self) -> ListSpec<A> {
        self.arena()[self.active()]
    }

    /// The arena is well formed and the active index names one of its lists.
    /// This holds of every picker.
    pub open spec fn wf(&self) -> bool {
        &&& arena_wf(self.arena())
        &&& 0 <= self.active() < self.arena().len()
    }

    #[verifier::type_invariant]
    spec fn well_formed(self) -> bool {
        self.wf()
    }

    /// Lays the resolved configuration out as an arena and shows its root.
    pub fn new(config: Config<A>) -> (mode: Self)
        ensures
            mode.wf(),
            mode.arena() == layout(config@, 0, None),
            mode.active() == 0,
    {
        let mut lists: Vec<List<A>> = Vec::new();
        let active_list = register_items(config.root, &mut lists, None);
        proof {
            lemma_layout_tree(config@, 0, None);
            assert(lists_view(lists@) =~= layout(config@, 0, None));
        }
        Unicode { lists, active_list }
    }

    /// The list that is shown.
    pub fn active_list(&self) -> (list: &List<A>)
        ensures
            self.wf(),
            list@ == self.shown(),
    {
        proof {
            use_type_invariant(self);
        }
        &self.lists[self.active_list]
    }

    /// Row `i` of the list that is shown.
    pub fn item(&self, i: usize) -> (item: &Item<A>)
        requires
            i < self.shown().items.len(),
        ensures
            item@ == self.shown().items[i as int],
    {
        proof {
            use_type_invariant(self);
        }
        &self.active_list().items[i]
    }

    /// The index of the list that is shown.
    pub fn active_index(&self) -> (index: usize)
        ensures
            index == self.active(),
    {
        self.active_list
    }

    /// The number of rows of the list that is shown.
    pub fn entries(&self) -> (count: usize)
        ensures
            self.wf(),
            count == self.shown().items.len(),
    {
        proof {
            use_type_invariant(self);
        }
        self.active_list().items.len()
    }

    /// The style spans of row `line`.
    pub fn entry_attributes(&self, line: usize) -> (attributes: &Vec<A>)
        requires
            line < self.shown().items.len(),
        ensures
            attributes@ == self.shown().items[line as int].name_attributes,
    {
        proof {
            use_type_invariant(self);
        }
        &self.item(line).name_attributes
    }

    /// The text of row `line`: its plain name, for a leaf and for a submenu
    /// alike.
    pub fn entry_content(&self, line: usize) -> (text: String)
        requires
            line < self.shown().items.len(),
        ensures
            text@ == self.shown().items[line as int].name,
    {
        proof {
            use_type_invariant(self);
        }
        self.item(line).name.clone()
    }

    /// The text that completes row `line`: its plain name.
    pub fn completed(&self, line: usize) -> (text: &str)
        requires
            line < self.shown().items.len(),
        ensures
            text@ == self.shown().items[line as int].name,
    {
        proof {
            use_type_invariant(self);
        }
        self.item(line).name.as_str()
    }

    /// The user chose row `selected`. A leaf asks for its text to be copied
    /// and leaves the state as it is; a submenu becomes the list that is shown.
    pub fn on_select(&mut self, selected: usize) -> (reaction: Reaction)
        requires
            selected < old(self).shown().items.len(),
        ensures
            final(self).wf(),
            final(self).arena() == old(self).arena(),
            match old(self).shown().items[selected as int].content {
                RowContent::Text(text) => {
                    &&& final(self).active() == old(self).active()
                    &&& reaction matches Reaction::Copy(copy)
                    &&& copy@ == text
                },
                RowContent::List(index) => {
                    &&& final(self).active() == index
                    &&& reaction == Reaction::Act(Action::Reload)
                    &&& depth(final(self).arena(), final(self).active()) == depth(
                        old(self).arena(),
                        old(self).active(),
                    ) + 1
                },
            },
    {
        proof {
            use_type_invariant(&*self);
        }
        proof {
            let at = self.active();
            assert(points_within(
                self.arena(),
                0,
                at,
                selected as int,
                self.arena()[at].items[selected as int].content,
            ));
        }
        match &self.item(selected).content {
            Content::Text(text) => Reaction::Copy(text.clone()),
            Content::List(index) => {
                self.active_list = *index;
                Reaction::Act(Action::Reload)
            },
        }
    }

    /// The user cancelled. At the root the picker closes; elsewhere the list
    /// from which the shown one was opened is shown again, and the input is
    /// emptied.
    pub fn on_cancel(&mut self, input: &mut String) -> (action: Action)
        ensures
            final(self).wf(),
            final(self).arena() == old(self).arena(),
            match old(self).shown().index {
                Some((list, _)) => {
                    &&& action == Action::Reload
                    &&& final(self).active() == list
                    &&& final(input)@ == Seq::<char>::empty()
                    &&& depth(final(self).arena(), final(self).active()) + 1 == depth(
                        old(self).arena(),
                        old(self).active(),
                    )
                },
                None => {
                    &&& action == Action::Exit
                    &&& final(self).active() == old(self).active()
                    &&& final(input)@ == old(input)@
                },
            },
            old(self).active() == 0 <==> action == Action::Exit,
    {
        proof {
            use_type_invariant(&*self);
        }
        proof {
            let at = self.active();
            if at > 0 {
                assert(opened_within(self.arena(), 0, at, self.arena()[at].index));
            }
        }
        match self.active_list().index {
            Some(index) => {
                self.active_list = index.list;
                *input = String::new();
                Action::Reload
            },
            None => Action::Exit,
        }
    }

    /// The user asked for completion. With a row selected, its plain name
    /// takes the place of the input.
    pub fn on_complete(&self, selected: Option<usize>, input: &mut String) -> (action: Action)
        requires
            selected matches Some(line) ==> line < self.shown().items.len(),
        ensures
            action == Action::Reload,
            final(input)@ == match selected {
                Some(line) => self.shown().items[line as int].name,
                None => old(input)@,
            },
    {
        proof {
            use_type_invariant(self);
        }
        match selected {
            Some(line) => {
                *input = self.item(line).name.clone();
            },
            None => {},
        }
        Action::Reload
    }

    /// The breadcrumb: the display names, markup included, of the entries
    /// that lead from the root to the list that is shown, the outermost
    /// first, with `" / "` between each two. It is empty at the root.
    pub fn message(&self) -> (text: String)
        ensures
            self.wf(),
            text@ == join(path(self.arena(), self.active()), " / "@),
            self.active() == 0 ==> text@ == Seq::<char>::empty(),
    {
        proof {
            use_type_invariant(self);
        }
        let ghost lists = self.arena();
        let mut names: Vec<&str> = Vec::new();
        let mut at = self.active_list;
        assert(path(lists, at as int) + outward(names@) =~= path(lists, self.active()));
        loop
            invariant
                self.wf(),
                lists == self.arena(),
                0 <= at < lists.len(),
                path(lists, self.active()) == path(lists, at as int) + outward(names@),
            ensures
                path(lists, self.active()) == outward(names@),
            decreases at,
        {
            proof {
                if at > 0 {
                    assert(opened_within(lists, 0, at as int, lists[at as int].index));
                }
            }
            match self.lists[at].index {
                None => {
                    assert(path(lists, at as int) + outward(names@) =~= outward(names@));
                    break ;
                },
                Some(item_index) => {
                    let ghost before = names@;
                    let list = &self.lists[item_index.list];
                    names.push(list.items[item_index.index].name_markup.as_str());
                    assert(path(lists, at as int) + outward(before) =~= path(
                        lists,
                        item_index.list as int,
                    ) + outward(names@));
                    at = item_index.list;
                },
            }
        }
        proof {
            reveal_strlit(" / ");
            lemma_path_len(lists, self.active());
        }
        let ghost crumbs = outward(names@);
        let mut text = String::new();
        let mut k = names.len();
        assert(crumbs.take(0) =~= Seq::<Seq<char>>::empty());
        while k > 0
            invariant
                k <= names.len(),
                crumbs == outward(names@),
                text@ == join(crumbs.take(names.len() - k), " / "@),
            decreases k,
        {
            let ghost used = names.len() - k;
            if k < names.len() {
                text.append(" / ");
            }
            k -= 1;
            text.append(names[k]);
            proof {
                let now = crumbs.take(used + 1);
                assert(now.drop_last() =~= crumbs.take(used));
                assert(now.last() == names@[k as int]@);
                assert(text@ =~= join(now, " / "@));
            }
        }
        assert(crumbs.take(names.len() as int) =~= crumbs);
        text
    }

    /// Reacts to an event of the host.
    pub fn react(&mut self, event: Event, input: &mut String) -> (reaction: Reaction)
        requires
            event matches Event::Accept { selected, .. } ==> selected < old(self).shown().items.len(),
            event matches Event::Complete { selected: Some(line) } ==> line < old(
                self,
            ).shown().items.len(),
        ensures
            final(self).wf(),
            final(self).arena() == old(self).arena(),
            match event {
                Event::Cancel { .. } => match old(self).shown().index {
                    Some((list, _)) => {
                        &&& reaction == Reaction::Act(Action::Reload)
                        &&& final(self).active() == list
                        &&& final(input)@ == Seq::<char>::empty()
                    },
                    None => {
                        &&& reaction == Reaction::Act(Action::Exit)
                        &&& final(self).active() == old(self).active()
                        &&& final(input)@ == old(input)@
                    },
                },
                Event::Accept { selected, .. } => {
                    &&& final(input)@ == old(input)@
                    &&& match old(self).shown().items[selected as int].content {
                        RowContent::Text(text) => {
                            &&& final(self).active() == old(self).active()
                            &&& reaction matches Reaction::Copy(copy)
                            &&& copy@ == text
                        },
                        RowContent::List(index) => {
                            &&& final(self).active() == index
                            &&& reaction == Reaction::Act(Action::Reload)
                        },
                    }
                },
                Event::Complete { selected } => {
                    &&& reaction == Reaction::Act(Action::Reload)
                    &&& final(self).active() == old(self).active()
                    &&& final(input)@ == match selected {
                        Some(line) => old(self).shown().items[line as int].name,
                        None => old(input)@,
                    }
                },
                _ => {
                    &&& reaction == Reaction::Act(Action::Reload)
                    &&& final(self).active() == old(self).active()
                    &&& final(input)@ == old(input)@
                },
            },
    {
        proof {
            use_type_invariant(&*self);
        }
        match event {
            Event::Cancel { .. } => Reaction::Act(self.on_cancel(input)),
            Event::Accept { selected, .. } => self.on_select(selected),
            Event::Complete { selected } => Reaction::Act(self.on_complete(selected, input)),
            Event::CustomInput { .. } | Event::DeleteEntry { .. } | Event::CustomCommand { .. } => {
                Reaction::Act(Action::Reload)
            },
        }
    }
}

} // verus!
