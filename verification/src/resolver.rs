//! The resolver: resolution as a machine that asks for what it needs.
//!
//! Parsing markup and loading fragments happen outside this library. A
//! [`Resolver`] says what it needs next, takes the answer, and goes on until
//! resolution has ended. Its steps are those of [`crate::resolve`].

use vstd::prelude::*;
use crate::config::{
    items_view, strings_view, Config, Content, ContentSpec, EntrySpec, Item, ItemSpec, NodeSpec,
    UnresolvedContent, UnresolvedItem, UnresolvedItems,
};
use crate::error::{Cause, ConfigError, ConfigErrorSpec, FragmentError, FragmentErrorSpec};
use crate::resolve::{
    chain_of, lemma_chain_of_push, lemma_settle_settled, merged, request, resolved_item, settle,
    settled, start, step_fragment, step_markup, FrameKindSpec, FrameSpec, MarkupSpec, RequestSpec,
    StateSpec,
};

verus! {

/// What the markup engine made of a display name.
#[derive(Debug, PartialEq, Eq)]
pub struct Markup<A> {
    /// The name with the markup taken out.
    pub text: String,
    /// The style spans.
    pub attributes: Vec<A>,
}

impl<A> View for Markup<A> {
    type V = MarkupSpec<A>;

    open spec fn view(&self) -> MarkupSpec<A> {
        MarkupSpec { text: self.text@, attributes: self.attributes@ }
    }
}

/// The mathematical value of the markup engine's answer.
pub open spec fn parsed_view<A>(parsed: Result<Markup<A>, String>) -> Result<
    MarkupSpec<A>,
    Seq<char>,
> {
    match parsed {
        Ok(markup) => Ok(markup@),
        Err(message) => Err(message@),
    }
}

/// The mathematical value of the outcome of loading a fragment.
pub open spec fn loaded_view(loaded: Result<UnresolvedItems, FragmentError>) -> Result<
    NodeSpec,
    FragmentErrorSpec,
> {
    match loaded {
        Ok(node) => Ok(node@),
        Err(error) => Err(error@),
    }
}

/// The mathematical value of a resolution's end.
pub open spec fn outcome_view<A>(outcome: Result<Config<A>, ConfigError>) -> Result<
    Seq<ItemSpec<A>>,
    ConfigErrorSpec,
> {
    match outcome {
        Ok(config) => Ok(config@),
        Err(error) => Err(error@),
    }
}

/// What a resolver asks of the outside.
#[derive(Debug, PartialEq, Eq)]
pub enum Request {
    /// Parse the markup of this display name.
    Markup(String),
    /// Load and parse the fragment of this reference.
    Fragment(String),
    /// Nothing: resolution has ended.
    Nothing,
}

impl View for Request {
    type V = RequestSpec;

    open spec fn view(&self) -> RequestSpec {
        match self {
            Request::Markup(name) => RequestSpec::Markup(name@),
            Request::Fragment(reference) => RequestSpec::Fragment(reference@),
            Request::Nothing => RequestSpec::Nothing,
        }
    }
}

enum FrameKind<A> {
    Root,
    Submenu { name: String, markup: Markup<A> },
    Include { reference: String },
}

impl<A> View for FrameKind<A> {
    type V = FrameKindSpec<A>;

    closed spec fn view(&self) -> FrameKindSpec<A> {
        match self {
            FrameKind::Root => FrameKindSpec::Root,
            FrameKind::Submenu { name, markup } => FrameKindSpec::Submenu {
                name: name@,
                markup: markup@,
            },
            FrameKind::Include { reference } => FrameKindSpec::Include { reference: reference@ },
        }
    }
}

/// One node in resolution. What is still to do is held last first, so that
/// the next entry and the next fragment are taken off the end.
struct Frame<A> {
    kind: FrameKind<A>,
    direct: Vec<UnresolvedItem>,
    extends: Vec<String>,
    resolved: Vec<Item<A>>,
}

/// The values of entries that are held last first.
spec fn pending_entries(held: Seq<UnresolvedItem>) -> Seq<EntrySpec> {
    Seq::new(held.len(), |i: int| held[held.len() - 1 - i]@)
}

/// The values of strings that are held last first.
spec fn pending_strings(held: Seq<String>) -> Seq<Seq<char>> {
    Seq::new(held.len(), |i: int| held[held.len() - 1 - i]@)
}

impl<A> View for Frame<A> {
    type V = FrameSpec<A>;

    closed spec fn view(&self) -> FrameSpec<A> {
        FrameSpec {
            kind: self.kind@,
            direct: pending_entries(self.direct@),
            extends: pending_strings(self.extends@),
            resolved: items_view(self.resolved@),
        }
    }
}

spec fn frames_view<A>(stack: Seq<Frame<A>>) -> Seq<FrameSpec<A>> {
    Seq::new(stack.len(), |i: int| stack[i]@)
}

/// `items` in the opposite order.
fn reversed<T>(items: Vec<T>) -> (turned: Vec<T>)
    ensures
        turned@ == items@.reverse(),
{
    let ghost all = items@;
    let mut items = items;
    let mut turned: Vec<T> = Vec::new();
    while items.len() > 0
        invariant
            items@.len() + turned@.len() == all.len(),
            items@ == all.take(items@.len() as int),
            forall|i: int| 0 <= i < turned@.len() ==> turned@[i] == all[all.len() - 1 - i],
        decreases items.len(),
    {
        let ghost before = items@;
        let last = items.pop().unwrap();
        assert(last == all[before.len() - 1]);
        assert(items@ =~= all.take(items@.len() as int));
        turned.push(last);
    }
    assert(turned@ =~= all.reverse());
    turned
}

/// A resolution in progress.
pub struct Resolver<A> {
    stack: Vec<Frame<A>>,
    outcome: Option<Result<Vec<Item<A>>, ConfigError>>,
}

impl<A> View for Resolver<A> {
    type V = StateSpec<A>;

    closed spec fn view(&self) -> StateSpec<A> {
        match self.outcome {
            Some(Ok(items)) => StateSpec::Finished(Ok(items_view(items@))),
            Some(Err(error)) => StateSpec::Finished(Err(error@)),
            None => StateSpec::Running(frames_view(self.stack@)),
        }
    }
}

impl<A> Resolver<A> {
    /// While resolution runs, the innermost node has something to ask for.
    pub open spec fn wf(&self) -> bool {
        self@ matches StateSpec::Running(stack) ==> settled(stack)
    }

    /// Begins the resolution of a root configuration.
    pub fn new(root: UnresolvedItems) -> (resolver: Self)
        ensures
            resolver.wf(),
            resolver@ == start::<A>(root@),
    {
        let ghost node = root@;
        let frame = Frame {
            kind: FrameKind::Root,
            direct: reversed(root.direct),
            extends: reversed(root.extends),
            resolved: Vec::new(),
        };
        proof {
            assert(frame@.direct =~= node.direct);
            assert(frame@.extends =~= node.extends);
            assert(frame@.resolved =~= Seq::<ItemSpec<A>>::empty());
        }
        let mut stack: Vec<Frame<A>> = Vec::new();
        stack.push(frame);
        assert(frames_view(stack@) =~= seq![frame@]);
        let mut resolver = Resolver { stack, outcome: None };
        resolver.settle();
        proof {
            lemma_settle_settled(seq![frame@]);
        }
        resolver
    }

    /// The references of the fragments in resolution, the outermost first.
    fn chain(&self) -> (chain: Vec<String>)
        ensures
            strings_view(chain@) == chain_of(frames_view(self.stack@)),
    {
        let ghost frames = frames_view(self.stack@);
        let mut chain: Vec<String> = Vec::new();
        let mut i: usize = 0;
        assert(strings_view(chain@) =~= chain_of(frames.take(0)));
        while i < self.stack.len()
            invariant
                i <= self.stack.len(),
                frames == frames_view(self.stack@),
                strings_view(chain@) == chain_of(frames.take(i as int)),
            decreases self.stack.len() - i,
        {
            proof {
                lemma_chain_of_push(frames.take(i as int), frames[i as int]);
                assert(frames.take(i + 1) =~= frames.take(i as int).push(frames[i as int]));
            }
            let ghost before = strings_view(chain@);
            match &self.stack[i].kind {
                FrameKind::Include { reference } => {
                    chain.push(reference.clone());
                    assert(strings_view(chain@) =~= before.push(reference@));
                },
                _ => {},
            }
            i += 1;
        }
        assert(frames.take(i as int) =~= frames);
        chain
    }

    /// Whether the fragment `reference` is in resolution.
    fn in_chain(&self, reference: &String) -> (found: bool)
        ensures
            found == chain_of(frames_view(self.stack@)).contains(reference@),
    {
        let chain = self.chain();
        let ghost names = strings_view(chain@);
        let mut i: usize = 0;
        while i < chain.len()
            invariant
                i <= chain.len(),
                names == strings_view(chain@),
                names == chain_of(frames_view(self.stack@)),
                forall|j: int| 0 <= j < i ==> names[j] != reference@,
            decreases chain.len() - i,
        {
            if chain[i] == *reference {
                assert(names[i as int] == reference@);
                assert(names.contains(reference@));
                return true;
            }
            i += 1;
        }
        false
    }

    /// Takes finished nodes off the stack until the innermost node has
    /// something to ask for or resolution ends.
    fn settle(&mut self)
        requires
            old(self).outcome is None,
            old(self).stack@.len() > 0,
        ensures
            final(self)@ == settle(frames_view(old(self).stack@)),
    {
        let ghost target = settle(frames_view(self.stack@));
        loop
            invariant_except_break
                self.outcome is None,
                self.stack@.len() > 0,
                settle(frames_view(self.stack@)) == target,
            ensures
                self@ == target,
            decreases self.stack@.len(),
        {
            let ghost frames = frames_view(self.stack@);
            let n = self.stack.len();
            let top = &self.stack[n - 1];
            assert(frames.last() == top@);
            if top.direct.len() > 0 {
                break ;
            }
            if top.extends.len() > 0 {
                let reference = &top.extends[top.extends.len() - 1];
                assert(top@.extends[0] == reference@);
                if self.in_chain(reference) {
                    let cause = Cause::CyclicInclude { reference: reference.clone() };
                    let chain = self.chain();
                    self.outcome = Some(Err(ConfigError { chain, cause }));
                }
                break ;
            }
            let frame = self.stack.pop().unwrap();
            if self.stack.len() == 0 {
                self.outcome = Some(Ok(frame.resolved));
                break ;
            }
            let ghost below = frames.drop_last();
            assert(frames_view(self.stack@) =~= below);
            let mut parent = self.stack.pop().unwrap();
            assert(frames_view(self.stack@) =~= below.drop_last());
            assert(parent@ == below.last());
            let ghost had = items_view(parent.resolved@);
            let ghost list = items_view(frame.resolved@);
            match frame.kind {
                FrameKind::Submenu { name, markup } => {
                    parent.resolved.push(
                        Item {
                            name: markup.text,
                            name_attributes: markup.attributes,
                            name_markup: name,
                            content: Content::Items(frame.resolved),
                        },
                    );
                    assert(items_view(parent.resolved@) =~= had.push(
                        resolved_item(
                            name@,
                            markup@,
                            ContentSpec::Items(list),
                        ),
                    ));
                },
                FrameKind::Include { .. } => {
                    let mut items = frame.resolved;
                    parent.resolved.append(&mut items);
                    assert(items_view(parent.resolved@) =~= had + list);
                },
                FrameKind::Root => {},
            }
            self.stack.push(parent);
            assert(frames_view(self.stack@) =~= below.drop_last().push(
                merged(below.last(), frames.last().kind, frames.last().resolved),
            ));
        }
    }

    /// What the resolver needs next.
    pub fn request(&self) -> (asked: Request)
        ensures
            asked@ == request(self@),
    {
        if self.outcome.is_some() || self.stack.len() == 0 {
            return Request::Nothing;
        }
        let top = &self.stack[self.stack.len() - 1];
        assert(frames_view(self.stack@).last() == top@);
        if top.direct.len() > 0 {
            Request::Markup(top.direct[top.direct.len() - 1].name.clone())
        } else if top.extends.len() > 0 {
            Request::Fragment(top.extends[top.extends.len() - 1].clone())
        } else {
            Request::Nothing
        }
    }

    /// Takes the markup engine's answer on the display name that was asked
    /// about: its plain text and style spans, or the engine's message.
    pub fn markup_parsed(&mut self, parsed: Result<Markup<A>, String>)
        ensures
            final(self)@ == step_markup(old(self)@, parsed_view(parsed)),
            old(self).wf() ==> final(self).wf(),
    {
        if self.outcome.is_some() || self.stack.len() == 0 {
            return ;
        }
        let ghost frames = frames_view(self.stack@);
        let n = self.stack.len();
        assert(frames.last() == self.stack@[n - 1]@);
        if self.stack[n - 1].direct.len() == 0 {
            return ;
        }
        let mut top = self.stack.pop().unwrap();
        assert(frames_view(self.stack@) =~= frames.drop_last());
        let ghost waiting = top@;
        let entry = top.direct.pop().unwrap();
        assert(entry@ == waiting.direct[0]);
        assert(top@.direct =~= waiting.direct.drop_first());
        match parsed {
            Err(message) => {
                let ghost left = top@;
                self.stack.push(top);
                proof {
                    lemma_chain_of_push(frames.drop_last(), left);
                    lemma_chain_of_push(frames.drop_last(), waiting);
                    assert(frames =~= frames.drop_last().push(waiting));
                    assert(frames_view(self.stack@) =~= frames.drop_last().push(left));
                }
                let chain = self.chain();
                let cause = Cause::Markup { name: entry.name, message };
                self.outcome = Some(Err(ConfigError { chain, cause }));
            },
            Ok(markup) => {
                match entry.content {
                    UnresolvedContent::Text(text) => {
                        let ghost had = items_view(top.resolved@);
                        let item = Item {
                            name: markup.text,
                            name_attributes: markup.attributes,
                            name_markup: entry.name,
                            content: Content::Text(text),
                        };
                        top.resolved.push(item);
                        assert(items_view(top.resolved@) =~= had.push(item@));
                        self.stack.push(top);
                        assert(frames_view(self.stack@) =~= frames.drop_last().push(top@));
                    },
                    UnresolvedContent::Items(node) => {
                        let ghost inner = node@;
                        let entered = Frame {
                            kind: FrameKind::Submenu { name: entry.name, markup },
                            direct: reversed(node.direct),
                            extends: reversed(node.extends),
                            resolved: Vec::new(),
                        };
                        proof {
                            assert(entered@.direct =~= inner.direct);
                            assert(entered@.extends =~= inner.extends);
                            assert(entered@.resolved =~= Seq::<ItemSpec<A>>::empty());
                        }
                        self.stack.push(top);
                        self.stack.push(entered);
                        assert(frames_view(self.stack@) =~= frames.drop_last().push(top@).push(
                            entered@,
                        ));
                    },
                }
                proof {
                    lemma_settle_settled(frames_view(self.stack@));
                }
                self.settle();
            },
        }
    }

    /// Takes the outcome of loading and parsing the fragment that was asked
    /// for: its node, or why there is none.
    pub fn fragment_loaded(&mut self, loaded: Result<UnresolvedItems, FragmentError>)
        ensures
            final(self)@ == step_fragment(old(self)@, loaded_view(loaded)),
            old(self).wf() ==> final(self).wf(),
    {
        if self.outcome.is_some() || self.stack.len() == 0 {
            return ;
        }
        let ghost frames = frames_view(self.stack@);
        let n = self.stack.len();
        assert(frames.last() == self.stack@[n - 1]@);
        if self.stack[n - 1].direct.len() > 0 || self.stack[n - 1].extends.len() == 0 {
            return ;
        }
        match loaded {
            Err(error) => {
                let chain = self.chain();
                let reference = self.stack[n - 1].extends[self.stack[n - 1].extends.len()
                    - 1].clone();
                let cause = Cause::Fragment { reference, error };
                self.outcome = Some(Err(ConfigError { chain, cause }));
            },
            Ok(node) => {
                let mut top = self.stack.pop().unwrap();
                assert(frames_view(self.stack@) =~= frames.drop_last());
                let ghost waiting = top@;
                let reference = top.extends.pop().unwrap();
                assert(reference@ == waiting.extends[0]);
                assert(top@.extends =~= waiting.extends.drop_first());
                let ghost inner = node@;
                let entered = Frame {
                    kind: FrameKind::Include { reference },
                    direct: reversed(node.direct),
                    extends: reversed(node.extends),
                    resolved: Vec::new(),
                };
                proof {
                    assert(entered@.direct =~= inner.direct);
                    assert(entered@.extends =~= inner.extends);
                    assert(entered@.resolved =~= Seq::<ItemSpec<A>>::empty());
                }
                self.stack.push(top);
                self.stack.push(entered);
                assert(frames_view(self.stack@) =~= frames.drop_last().push(top@).push(entered@));
                proof {
                    lemma_settle_settled(frames_view(self.stack@));
                }
                self.settle();
            },
        }
    }

    /// How resolution ended, once it has; `None` while it runs.
    pub fn finish(self) -> (outcome: Option<Result<Config<A>, ConfigError>>)
        ensures
            match self@ {
                StateSpec::Running(_) => outcome is None,
                StateSpec::Finished(end) => outcome matches Some(result) && outcome_view(result)
                    == end,
            },
    {
        match self.outcome {
            Some(Ok(root)) => Some(Ok(Config { root })),
            Some(Err(error)) => Some(Err(error)),
            None => None,
        }
    }
}

} // verus!
