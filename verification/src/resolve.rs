//! Resolution: from a configuration node to the ordered list of its items.
//!
//! A node's own entries come first, in source order; then, for each fragment
//! that it extends, in the order listed, the items of that fragment, resolved
//! in the same way. A fragment that extends itself, directly or through
//! others, is refused.
//!
//! What a display name's markup stands for, and what a fragment reference
//! holds, are decided outside this library. [`World`] stands for those
//! answers, and [`resolve`] says what resolution yields for given answers.

use vstd::prelude::*;
use crate::config::{ContentSpec, EntryContentSpec, EntrySpec, ItemSpec, NodeSpec};
use crate::error::{CauseSpec, ConfigErrorSpec, FragmentErrorSpec};

verus! {

/// What a display name's markup stands for.
pub ghost struct MarkupSpec<A> {
    /// The name with the markup taken out.
    pub text: Seq<char>,
    /// The style spans.
    pub attributes: Seq<A>,
}

/// The answers from outside: what the markup engine makes of each display
/// name, which fragments can be had and what they hold, and what goes wrong
/// with the others.
pub ghost struct World<A> {
    pub markup: spec_fn(Seq<char>) -> Result<MarkupSpec<A>, Seq<char>>,
    pub fragments: Map<Seq<char>, NodeSpec>,
    pub failures: spec_fn(Seq<char>) -> FragmentErrorSpec,
}

impl<A> World<A> {
    /// A world holds finitely many fragments.
    pub open spec fn wf(self) -> bool {
        self.fragments.dom().finite()
    }

    /// What comes of loading and parsing the fragment `reference`.
    pub open spec fn load(self, reference: Seq<char>) -> Result<NodeSpec, FragmentErrorSpec> {
        if self.fragments.contains_key(reference) {
            Ok(self.fragments[reference])
        } else {
            Err((self.failures)(reference))
        }
    }

    /// The number of fragments that can still be entered from within `chain`.
    pub open spec fn budget(self, chain: Seq<Seq<char>>) -> nat {
        self.fragments.dom().difference(chain.to_set()).len()
    }
}

/// The item that an entry becomes.
pub open spec fn resolved_item<A>(
    name: Seq<char>,
    markup: MarkupSpec<A>,
    content: ContentSpec<A>,
) -> ItemSpec<A> {
    ItemSpec {
        name: markup.text,
        name_attributes: markup.attributes,
        name_markup: name,
        content,
    }
}

/// `rest` with `items` in front, unless `rest` is a failure.
pub open spec fn after<A>(
    items: Seq<ItemSpec<A>>,
    rest: Result<Seq<ItemSpec<A>>, ConfigErrorSpec>,
) -> Result<Seq<ItemSpec<A>>, ConfigErrorSpec> {
    match rest {
        Ok(more) => Ok(items + more),
        Err(error) => Err(error),
    }
}

/// Entering a fragment that can be had leaves fewer to enter.
pub proof fn lemma_budget_decreases<A>(world: World<A>, chain: Seq<Seq<char>>, reference: Seq<char>)
    requires
        world.wf(),
        world.fragments.contains_key(reference),
        !chain.contains(reference),
    ensures
        world.budget(chain.push(reference)) < world.budget(chain),
{
    let all = world.fragments.dom();
    let open = all.difference(chain.to_set());
    let fewer = all.difference(chain.push(reference).to_set());
    assert(open.contains(reference));
    assert forall|r: Seq<char>| fewer.contains(r) <==> open.remove(reference).contains(r) by {
        if chain.to_set().contains(r) {
            let i = choose|i: int| 0 <= i < chain.len() && chain[i] == r;
            assert(chain.push(reference)[i] == r);
        }
        if chain.push(reference).to_set().contains(r) && r != reference {
            let i = choose|i: int| 0 <= i < chain.push(reference).len() && chain.push(reference)[i] == r;
            assert(chain[i] == r);
        }
        if r == reference {
            assert(chain.push(reference)[chain.len() as int] == r);
        }
    }
    assert(fewer =~= open.remove(reference));
}

/// What resolution yields for the entries `direct` followed by the fragments
/// `extends`, within the fragments of `chain`.
pub open spec fn resolve_rest<A>(
    direct: Seq<EntrySpec>,
    extends: Seq<Seq<char>>,
    chain: Seq<Seq<char>>,
    world: World<A>,
) -> Result<Seq<ItemSpec<A>>, ConfigErrorSpec>
    decreases world.budget(chain), direct, extends,
    when world.wf()
{
    if direct.len() > 0 {
        let entry = direct[0];
        match (world.markup)(entry.name) {
            Err(message) => Err(
                ConfigErrorSpec { chain, cause: CauseSpec::Markup { name: entry.name, message } },
            ),
            Ok(markup) => match entry.content {
                EntryContentSpec::Text(text) => after(
                    seq![resolved_item(entry.name, markup, ContentSpec::Text(text))],
                    resolve_rest(direct.drop_first(), extends, chain, world),
                ),
                EntryContentSpec::Items(node) => match resolve_rest(
                    node.direct,
                    node.extends,
                    chain,
                    world,
                ) {
                    Err(error) => Err(error),
                    Ok(nested) => after(
                        seq![resolved_item(entry.name, markup, ContentSpec::Items(nested))],
                        resolve_rest(direct.drop_first(), extends, chain, world),
                    ),
                },
            },
        }
    } else if extends.len() > 0 {
        let reference = extends[0];
        if chain.contains(reference) {
            Err(ConfigErrorSpec { chain, cause: CauseSpec::CyclicInclude { reference } })
        } else {
            match world.load(reference) {
                Err(error) => Err(
                    ConfigErrorSpec { chain, cause: CauseSpec::Fragment { reference, error } },
                ),
                Ok(node) => {
                    proof {
                        lemma_budget_decreases(world, chain, reference);
                    }
                    match resolve_rest(node.direct, node.extends, chain.push(reference), world) {
                        Err(error) => Err(error),
                        Ok(included) => after(
                            included,
                            resolve_rest(direct, extends.drop_first(), chain, world),
                        ),
                    }
                },
            }
        }
    } else {
        Ok(Seq::empty())
    }
}

/// What resolution yields for a node within the fragments of `chain`.
pub open spec fn resolve_node<A>(node: NodeSpec, chain: Seq<Seq<char>>, world: World<A>) -> Result<
    Seq<ItemSpec<A>>,
    ConfigErrorSpec,
> {
    resolve_rest(node.direct, node.extends, chain, world)
}

/// What resolution yields for a root configuration.
pub open spec fn resolve<A>(root: NodeSpec, world: World<A>) -> Result<
    Seq<ItemSpec<A>>,
    ConfigErrorSpec,
> {
    resolve_node(root, Seq::empty(), world)
}

/// What a frame of the resolver stands for.
pub ghost enum FrameKindSpec<A> {
    /// The root configuration.
    Root,
    /// The submenu of an entry whose name has been parsed.
    Submenu { name: Seq<char>, markup: MarkupSpec<A> },
    /// A fragment that is being merged in.
    Include { reference: Seq<char> },
}

/// One node in the course of its resolution: the entries and the fragments
/// that are still to do, and the items that it has yielded so far.
pub ghost struct FrameSpec<A> {
    pub kind: FrameKindSpec<A>,
    pub direct: Seq<EntrySpec>,
    pub extends: Seq<Seq<char>>,
    pub resolved: Seq<ItemSpec<A>>,
}

/// A resolver's state: the nodes in resolution, the outermost first, or how
/// resolution ended.
pub ghost enum StateSpec<A> {
    Running(Seq<FrameSpec<A>>),
    Finished(Result<Seq<ItemSpec<A>>, ConfigErrorSpec>),
}

/// What a resolver asks of the outside.
pub ghost enum RequestSpec {
    /// Parse the markup of this display name.
    Markup(Seq<char>),
    /// Load and parse the fragment of this reference.
    Fragment(Seq<char>),
    /// Nothing: resolution has ended.
    Nothing,
}

/// The references of the fragments in resolution, the outermost first.
pub open spec fn chain_of<A>(stack: Seq<FrameSpec<A>>) -> Seq<Seq<char>>
    decreases stack.len(),
{
    if stack.len() == 0 {
        Seq::empty()
    } else {
        match stack.last().kind {
            FrameKindSpec::Include { reference } => chain_of(stack.drop_last()).push(reference),
            _ => chain_of(stack.drop_last()),
        }
    }
}

/// The frame `parent` once a node of `kind` that it was waiting for has
/// yielded `list`: a submenu becomes one item, a fragment's items are
/// appended.
pub open spec fn merged<A>(
    parent: FrameSpec<A>,
    kind: FrameKindSpec<A>,
    list: Seq<ItemSpec<A>>,
) -> FrameSpec<A> {
    FrameSpec {
        resolved: match kind {
            FrameKindSpec::Submenu { name, markup } => parent.resolved.push(
                resolved_item(name, markup, ContentSpec::Items(list)),
            ),
            FrameKindSpec::Include { .. } => parent.resolved + list,
            FrameKindSpec::Root => parent.resolved,
        },
        ..parent
    }
}

/// Takes finished nodes off the stack, handing what each yielded to the node
/// below it, until the innermost node has something to do or resolution
/// ends. A fragment that is next in line and already in resolution ends it.
pub open spec fn settle<A>(stack: Seq<FrameSpec<A>>) -> StateSpec<A>
    decreases stack.len(),
{
    if stack.len() == 0 {
        StateSpec::Finished(Ok(Seq::empty()))
    } else {
        let top = stack.last();
        if top.direct.len() > 0 {
            StateSpec::Running(stack)
        } else if top.extends.len() > 0 {
            if chain_of(stack).contains(top.extends[0]) {
                StateSpec::Finished(
                    Err(
                        ConfigErrorSpec {
                            chain: chain_of(stack),
                            cause: CauseSpec::CyclicInclude { reference: top.extends[0] },
                        },
                    ),
                )
            } else {
                StateSpec::Running(stack)
            }
        } else if stack.len() == 1 {
            StateSpec::Finished(Ok(top.resolved))
        } else {
            let below = stack.drop_last();
            settle(below.drop_last().push(merged(below.last(), top.kind, top.resolved)))
        }
    }
}

/// Whether the innermost node of `stack` has something to do that can be
/// asked for.
pub open spec fn settled<A>(stack: Seq<FrameSpec<A>>) -> bool {
    &&& stack.len() > 0
    &&& stack.last().direct.len() == 0 ==> {
        &&& stack.last().extends.len() > 0
        &&& !chain_of(stack).contains(stack.last().extends[0])
    }
}

/// The state in which resolution of `root` begins.
pub open spec fn start<A>(root: NodeSpec) -> StateSpec<A> {
    settle(
        seq![
            FrameSpec {
                kind: FrameKindSpec::Root,
                direct: root.direct,
                extends: root.extends,
                resolved: Seq::empty(),
            },
        ],
    )
}

/// What a resolver in `state` asks for.
pub open spec fn request<A>(state: StateSpec<A>) -> RequestSpec {
    match state {
        StateSpec::Running(stack) => if stack.len() == 0 {
            RequestSpec::Nothing
        } else if stack.last().direct.len() > 0 {
            RequestSpec::Markup(stack.last().direct[0].name)
        } else if stack.last().extends.len() > 0 {
            RequestSpec::Fragment(stack.last().extends[0])
        } else {
            RequestSpec::Nothing
        },
        StateSpec::Finished(_) => RequestSpec::Nothing,
    }
}

/// The state after the markup engine's answer on the display name that was
/// asked about. A failure ends resolution. Otherwise a leaf becomes an item
/// of its node, and a submenu becomes the innermost node. A state that asks
/// for no markup stays as it is.
pub open spec fn step_markup<A>(
    state: StateSpec<A>,
    parsed: Result<MarkupSpec<A>, Seq<char>>,
) -> StateSpec<A> {
    if request(state) is Markup {
        let stack = state->Running_0;
        let top = stack.last();
        let entry = top.direct[0];
        match parsed {
            Err(message) => StateSpec::Finished(
                Err(
                    ConfigErrorSpec {
                        chain: chain_of(stack),
                        cause: CauseSpec::Markup { name: entry.name, message },
                    },
                ),
            ),
            Ok(markup) => match entry.content {
                EntryContentSpec::Text(text) => settle(
                    stack.drop_last().push(
                        FrameSpec {
                            direct: top.direct.drop_first(),
                            resolved: top.resolved.push(
                                resolved_item(entry.name, markup, ContentSpec::Text(text)),
                            ),
                            ..top
                        },
                    ),
                ),
                EntryContentSpec::Items(node) => settle(
                    stack.drop_last().push(
                        FrameSpec { direct: top.direct.drop_first(), ..top },
                    ).push(
                        FrameSpec {
                            kind: FrameKindSpec::Submenu { name: entry.name, markup },
                            direct: node.direct,
                            extends: node.extends,
                            resolved: Seq::empty(),
                        },
                    ),
                ),
            },
        }
    } else {
        state
    }
}

/// The state after the outcome of loading and parsing the fragment that was
/// asked for. A failure ends resolution. Otherwise the fragment becomes the
/// innermost node. A state that asks for no fragment stays as it is.
pub open spec fn step_fragment<A>(
    state: StateSpec<A>,
    loaded: Result<NodeSpec, FragmentErrorSpec>,
) -> StateSpec<A> {
    if request(state) is Fragment {
        let stack = state->Running_0;
        let top = stack.last();
        let reference = top.extends[0];
        match loaded {
            Err(error) => StateSpec::Finished(
                Err(
                    ConfigErrorSpec {
                        chain: chain_of(stack),
                        cause: CauseSpec::Fragment { reference, error },
                    },
                ),
            ),
            Ok(node) => settle(
                stack.drop_last().push(
                    FrameSpec { extends: top.extends.drop_first(), ..top },
                ).push(
                    FrameSpec {
                        kind: FrameKindSpec::Include { reference },
                        direct: node.direct,
                        extends: node.extends,
                        resolved: Seq::empty(),
                    },
                ),
            ),
        }
    } else {
        state
    }
}

/// What resolution ends in, from the nodes of `stack` on, where the outside
/// answers as `world` does.
pub open spec fn complete<A>(stack: Seq<FrameSpec<A>>, world: World<A>) -> Result<
    Seq<ItemSpec<A>>,
    ConfigErrorSpec,
>
    decreases stack.len(), 0int,
{
    if stack.len() == 0 {
        Ok(Seq::empty())
    } else {
        let top = stack.last();
        match resolve_rest(top.direct, top.extends, chain_of(stack), world) {
            Err(error) => Err(error),
            Ok(rest) => unwind(stack.drop_last(), top.kind, top.resolved + rest, world),
        }
    }
}

/// What resolution ends in once a node of `kind` above the nodes of `below`
/// has yielded `list`.
pub open spec fn unwind<A>(
    below: Seq<FrameSpec<A>>,
    kind: FrameKindSpec<A>,
    list: Seq<ItemSpec<A>>,
    world: World<A>,
) -> Result<Seq<ItemSpec<A>>, ConfigErrorSpec>
    decreases below.len(), 1int,
{
    if below.len() == 0 {
        Ok(list)
    } else {
        complete(below.drop_last().push(merged(below.last(), kind, list)), world)
    }
}

/// What resolution ends in from `state` on, where the outside answers as
/// `world` does.
pub open spec fn outcome_in<A>(state: StateSpec<A>, world: World<A>) -> Result<
    Seq<ItemSpec<A>>,
    ConfigErrorSpec,
> {
    match state {
        StateSpec::Running(stack) => complete(stack, world),
        StateSpec::Finished(outcome) => outcome,
    }
}

/// `first`, then `second`: the items of both in that order, or the failure
/// that comes first.
pub open spec fn then<A>(
    first: Result<Seq<ItemSpec<A>>, ConfigErrorSpec>,
    second: Result<Seq<ItemSpec<A>>, ConfigErrorSpec>,
) -> Result<Seq<ItemSpec<A>>, ConfigErrorSpec> {
    match first {
        Ok(items) => after(items, second),
        Err(error) => Err(error),
    }
}

/// What merging in the fragment `reference` yields within the fragments of
/// `chain`.
pub open spec fn merge_in<A>(reference: Seq<char>, chain: Seq<Seq<char>>, world: World<A>) -> Result<
    Seq<ItemSpec<A>>,
    ConfigErrorSpec,
> {
    if chain.contains(reference) {
        Err(ConfigErrorSpec { chain, cause: CauseSpec::CyclicInclude { reference } })
    } else {
        match world.load(reference) {
            Err(error) => Err(
                ConfigErrorSpec { chain, cause: CauseSpec::Fragment { reference, error } },
            ),
            Ok(node) => resolve_node(node, chain.push(reference), world),
        }
    }
}

/// What one entry resolves to within the fragments of `chain`: its name is
/// parsed for markup, a leaf keeps its text, and a submenu holds what its
/// node resolves to.
pub open spec fn resolve_entry<A>(entry: EntrySpec, chain: Seq<Seq<char>>, world: World<A>) -> Result<
    ItemSpec<A>,
    ConfigErrorSpec,
> {
    match (world.markup)(entry.name) {
        Err(message) => Err(
            ConfigErrorSpec { chain, cause: CauseSpec::Markup { name: entry.name, message } },
        ),
        Ok(markup) => match entry.content {
            EntryContentSpec::Text(text) => Ok(
                resolved_item(entry.name, markup, ContentSpec::Text(text)),
            ),
            EntryContentSpec::Items(node) => match resolve_node(node, chain, world) {
                Err(error) => Err(error),
                Ok(nested) => Ok(resolved_item(entry.name, markup, ContentSpec::Items(nested))),
            },
        },
    }
}

/// The fragments of a node are merged in after all of its own entries.
pub proof fn lemma_direct_then_extends<A>(
    direct: Seq<EntrySpec>,
    extends: Seq<Seq<char>>,
    chain: Seq<Seq<char>>,
    world: World<A>,
)
    requires
        world.wf(),
    ensures
        resolve_rest(direct, extends, chain, world) == then(
            resolve_rest(direct, Seq::empty(), chain, world),
            resolve_rest(Seq::empty(), extends, chain, world),
        ),
    decreases direct.len(),
{
    let none = Seq::<Seq<char>>::empty();
    let tail = resolve_rest(Seq::<EntrySpec>::empty(), extends, chain, world);
    if direct.len() > 0 {
        let entry = direct[0];
        lemma_direct_then_extends(direct.drop_first(), extends, chain, world);
        let rest_all = resolve_rest(direct.drop_first(), extends, chain, world);
        let rest_own = resolve_rest(direct.drop_first(), none, chain, world);
        assert(rest_all == then(rest_own, tail));
        match (world.markup)(entry.name) {
            Err(_) => {},
            Ok(markup) => {
                let content = match entry.content {
                    EntryContentSpec::Text(text) => Ok(ContentSpec::<A>::Text(text)),
                    EntryContentSpec::Items(node) => match resolve_rest(
                        node.direct,
                        node.extends,
                        chain,
                        world,
                    ) {
                        Ok(nested) => Ok(ContentSpec::Items(nested)),
                        Err(error) => Err(error),
                    },
                };
                match content {
                    Err(_) => {},
                    Ok(content) => {
                        let head = seq![resolved_item(entry.name, markup, content)];
                        assert(resolve_rest(direct, extends, chain, world) == after(
                            head,
                            rest_all,
                        ));
                        assert(resolve_rest(direct, none, chain, world) == after(head, rest_own));
                        match rest_own {
                            Err(_) => {},
                            Ok(own) => match tail {
                                Err(_) => {},
                                Ok(more) => {
                                    assert(head + (own + more) =~= (head + own) + more);
                                },
                            },
                        }
                    },
                }
            },
        }
    } else {
        assert(direct =~= Seq::<EntrySpec>::empty());
        match tail {
            Ok(more) => {
                assert(Seq::<ItemSpec<A>>::empty() + more =~= more);
            },
            Err(_) => {},
        }
    }
}

/// Fragments are merged in one after the other, in the order listed.
pub proof fn lemma_extends_in_order<A>(
    extends: Seq<Seq<char>>,
    chain: Seq<Seq<char>>,
    world: World<A>,
)
    requires
        world.wf(),
        extends.len() > 0,
    ensures
        resolve_rest(Seq::empty(), extends, chain, world) == then(
            merge_in(extends[0], chain, world),
            resolve_rest(Seq::empty(), extends.drop_first(), chain, world),
        ),
{
}

/// Order preservation: a node that extends no fragment resolves to one item
/// for each of its entries, in the order of the entries, and each item is
/// what its entry resolves to.
pub proof fn lemma_order_preserved<A>(direct: Seq<EntrySpec>, chain: Seq<Seq<char>>, world: World<A>)
    requires
        world.wf(),
    ensures
        resolve_rest(direct, Seq::empty(), chain, world) matches Ok(items) ==> {
            &&& items.len() == direct.len()
            &&& forall|k: int|
                0 <= k < direct.len() ==> resolve_entry(direct[k], chain, world) == Ok::<
                    ItemSpec<A>,
                    ConfigErrorSpec,
                >(#[trigger] items[k])
        },
    decreases direct.len(),
{
    let none = Seq::<Seq<char>>::empty();
    if direct.len() > 0 {
        lemma_order_preserved(direct.drop_first(), chain, world);
        match resolve_rest(direct, none, chain, world) {
            Ok(items) => {
                let rest = resolve_rest(direct.drop_first(), none, chain, world)->Ok_0;
                assert(items.len() == 1 + rest.len());
                assert forall|k: int| 0 <= k < direct.len() implies resolve_entry(
                    direct[k],
                    chain,
                    world,
                ) == Ok::<ItemSpec<A>, ConfigErrorSpec>(#[trigger] items[k]) by {
                    if k > 0 {
                        assert(items[k] == rest[k - 1]);
                        assert(direct[k] == direct.drop_first()[k - 1]);
                    }
                }
            },
            Err(_) => {},
        }
    }
}

/// A node that extends no fragment fails just where one of its entries
/// does, and then with the failure of the first such entry.
pub proof fn lemma_first_failure<A>(direct: Seq<EntrySpec>, chain: Seq<Seq<char>>, world: World<A>)
    requires
        world.wf(),
    ensures
        resolve_rest(direct, Seq::empty(), chain, world) matches Err(error) ==> exists|k: int|
            0 <= k < direct.len() && #[trigger] resolve_entry(direct[k], chain, world) == Err::<
                ItemSpec<A>,
                ConfigErrorSpec,
            >(error) && forall|j: int| 0 <= j < k ==> (#[trigger] resolve_entry(
                direct[j],
                chain,
                world,
            )) is Ok,
    decreases direct.len(),
{
    let none = Seq::<Seq<char>>::empty();
    if direct.len() > 0 {
        let tail = direct.drop_first();
        lemma_first_failure(tail, chain, world);
        match resolve_rest(direct, none, chain, world) {
            Err(error) => {
                if resolve_entry(direct[0], chain, world) is Ok {
                    assert(resolve_rest(tail, none, chain, world) == Err::<
                        Seq<ItemSpec<A>>,
                        ConfigErrorSpec,
                    >(error));
                    let k = choose|k: int|
                        0 <= k < tail.len() && #[trigger] resolve_entry(tail[k], chain, world)
                            == Err::<ItemSpec<A>, ConfigErrorSpec>(error) && forall|j: int|
                            0 <= j < k ==> (#[trigger] resolve_entry(tail[j], chain, world)) is Ok;
                    assert(direct[k + 1] == tail[k]);
                    assert forall|j: int| 0 <= j < k + 1 implies (#[trigger] resolve_entry(
                        direct[j],
                        chain,
                        world,
                    )) is Ok by {
                        if j > 0 {
                            assert(direct[j] == tail[j - 1]);
                            assert(resolve_entry(tail[j - 1], chain, world) is Ok);
                        }
                    }
                    assert(resolve_entry(direct[k + 1], chain, world) == Err::<
                        ItemSpec<A>,
                        ConfigErrorSpec,
                    >(error));
                } else {
                    assert(resolve_entry(direct[0], chain, world) == Err::<
                        ItemSpec<A>,
                        ConfigErrorSpec,
                    >(error));
                }
            },
            Ok(_) => {},
        }
    }
}

/// A node resolves where each of its entries resolves and each of the
/// fragments that it extends can be merged in.
pub proof fn lemma_node_succeeds<A>(node: NodeSpec, chain: Seq<Seq<char>>, world: World<A>)
    requires
        world.wf(),
        forall|k: int|
            0 <= k < node.direct.len() ==> (#[trigger] resolve_entry(
                node.direct[k],
                chain,
                world,
            )) is Ok,
        forall|k: int|
            0 <= k < node.extends.len() ==> (#[trigger] merge_in(
                node.extends[k],
                chain,
                world,
            )) is Ok,
    ensures
        resolve_node(node, chain, world) is Ok,
{
    lemma_first_failure(node.direct, chain, world);
    lemma_extends_succeed(node.extends, chain, world);
    lemma_direct_then_extends(node.direct, node.extends, chain, world);
}

/// Fragments are merged in where each of them can be.
pub proof fn lemma_extends_succeed<A>(
    extends: Seq<Seq<char>>,
    chain: Seq<Seq<char>>,
    world: World<A>,
)
    requires
        world.wf(),
        forall|k: int|
            0 <= k < extends.len() ==> (#[trigger] merge_in(extends[k], chain, world)) is Ok,
    ensures
        resolve_rest(Seq::empty(), extends, chain, world) is Ok,
    decreases extends.len(),
{
    if extends.len() > 0 {
        let tail = extends.drop_first();
        assert forall|k: int| 0 <= k < tail.len() implies (#[trigger] merge_in(
            tail[k],
            chain,
            world,
        )) is Ok by {
            assert(tail[k] == extends[k + 1]);
        }
        lemma_extends_succeed(tail, chain, world);
        lemma_extends_in_order(extends, chain, world);
        assert(merge_in(extends[0], chain, world) is Ok);
    }
}

/// The concatenation law: a node that extends the fragments `a` and `b`
/// resolves to its own entries' items, then the items of `a`, then those of
/// `b`, each fragment resolved in the same way; and it fails with the first
/// failure among the three.
pub proof fn lemma_concatenation<A>(
    node: NodeSpec,
    a: Seq<char>,
    b: Seq<char>,
    chain: Seq<Seq<char>>,
    world: World<A>,
)
    requires
        world.wf(),
        node.extends == seq![a, b],
    ensures
        resolve_node(node, chain, world) == then(
            resolve_rest(node.direct, Seq::empty(), chain, world),
            then(merge_in(a, chain, world), merge_in(b, chain, world)),
        ),
{
    let none = Seq::<EntrySpec>::empty();
    let last = seq![b];
    lemma_direct_then_extends(node.direct, node.extends, chain, world);
    lemma_extends_in_order(node.extends, chain, world);
    assert(node.extends.drop_first() =~= last);
    lemma_extends_in_order(last, chain, world);
    assert(last.drop_first() =~= Seq::<Seq<char>>::empty());
    assert(resolve_rest(none, last.drop_first(), chain, world) == Ok::<
        Seq<ItemSpec<A>>,
        ConfigErrorSpec,
    >(Seq::empty()));
    match merge_in(b, chain, world) {
        Ok(items) => {
            assert(items + Seq::<ItemSpec<A>>::empty() =~= items);
        },
        Err(_) => {},
    }
}

/// The number of requests that resolving the entries `direct` and then the
/// fragments `extends` makes, within the fragments of `chain`.
pub open spec fn asks_rest<A>(
    direct: Seq<EntrySpec>,
    extends: Seq<Seq<char>>,
    chain: Seq<Seq<char>>,
    world: World<A>,
) -> nat
    decreases world.budget(chain), direct, extends,
    when world.wf()
{
    if direct.len() > 0 {
        let entry = direct[0];
        match (world.markup)(entry.name) {
            Err(_) => 1,
            Ok(_) => match entry.content {
                EntryContentSpec::Text(_) => 1 + asks_rest(
                    direct.drop_first(),
                    extends,
                    chain,
                    world,
                ),
                EntryContentSpec::Items(node) => 1 + asks_rest(
                    node.direct,
                    node.extends,
                    chain,
                    world,
                ) + match resolve_rest(node.direct, node.extends, chain, world) {
                    Err(_) => 0,
                    Ok(_) => asks_rest(direct.drop_first(), extends, chain, world),
                },
            },
        }
    } else if extends.len() > 0 {
        let reference = extends[0];
        if chain.contains(reference) {
            0
        } else {
            match world.load(reference) {
                Err(_) => 1,
                Ok(node) => {
                    proof {
                        lemma_budget_decreases(world, chain, reference);
                    }
                    1 + asks_rest(node.direct, node.extends, chain.push(reference), world)
                        + match resolve_rest(
                        node.direct,
                        node.extends,
                        chain.push(reference),
                        world,
                    ) {
                        Err(_) => 0,
                        Ok(_) => asks_rest(direct, extends.drop_first(), chain, world),
                    }
                },
            }
        }
    } else {
        0
    }
}

/// The number of requests that resolution makes from the nodes of `stack`
/// on, where the outside answers as `world` does.
pub open spec fn asks_complete<A>(stack: Seq<FrameSpec<A>>, world: World<A>) -> nat
    decreases stack.len(), 0int,
{
    if stack.len() == 0 {
        0
    } else {
        let top = stack.last();
        asks_rest(top.direct, top.extends, chain_of(stack), world) + match resolve_rest(
            top.direct,
            top.extends,
            chain_of(stack),
            world,
        ) {
            Err(_) => 0,
            Ok(rest) => asks_unwind(stack.drop_last(), top.kind, top.resolved + rest, world),
        }
    }
}

/// The number of requests that resolution makes once a node of `kind` above
/// the nodes of `below` has yielded `list`.
pub open spec fn asks_unwind<A>(
    below: Seq<FrameSpec<A>>,
    kind: FrameKindSpec<A>,
    list: Seq<ItemSpec<A>>,
    world: World<A>,
) -> nat
    decreases below.len(), 1int,
{
    if below.len() == 0 {
        0
    } else {
        asks_complete(below.drop_last().push(merged(below.last(), kind, list)), world)
    }
}

/// The number of requests that a resolver in `state` still makes, where the
/// outside answers as `world` does.
pub open spec fn asks<A>(state: StateSpec<A>, world: World<A>) -> nat {
    match state {
        StateSpec::Running(stack) => asks_complete(stack, world),
        StateSpec::Finished(_) => 0,
    }
}

/// The frames above the last decide the chain as `chain_of` unfolds it.
pub proof fn lemma_chain_of_push<A>(stack: Seq<FrameSpec<A>>, frame: FrameSpec<A>)
    ensures
        chain_of(stack.push(frame)) == match frame.kind {
            FrameKindSpec::Include { reference } => chain_of(stack).push(reference),
            _ => chain_of(stack),
        },
{
    assert(stack.push(frame).drop_last() =~= stack);
}

/// Settling changes nothing of what resolution ends in, and makes no
/// request.
pub proof fn lemma_settle<A>(stack: Seq<FrameSpec<A>>, world: World<A>)
    requires
        world.wf(),
        stack.len() > 0,
    ensures
        outcome_in(settle(stack), world) == complete(stack, world),
        asks(settle(stack), world) == asks_complete(stack, world),
    decreases stack.len(),
{
    let top = stack.last();
    if top.direct.len() == 0 && top.extends.len() == 0 {
        assert(top.resolved + Seq::<ItemSpec<A>>::empty() =~= top.resolved);
        if stack.len() > 1 {
            let below = stack.drop_last();
            lemma_settle(
                below.drop_last().push(merged(below.last(), top.kind, top.resolved)),
                world,
            );
        }
    }
}

/// Where settling leaves resolution running, the innermost node has
/// something to ask for.
pub proof fn lemma_settle_settled<A>(stack: Seq<FrameSpec<A>>)
    requires
        stack.len() > 0,
    ensures
        settle(stack) matches StateSpec::Running(rest) ==> settled(rest),
    decreases stack.len(),
{
    let top = stack.last();
    if top.direct.len() == 0 && top.extends.len() == 0 && stack.len() > 1 {
        let below = stack.drop_last();
        lemma_settle_settled(below.drop_last().push(merged(below.last(), top.kind, top.resolved)));
    }
}

/// Resolution begins in a state that ends in what `resolve` says.
pub proof fn lemma_start<A>(root: NodeSpec, world: World<A>)
    requires
        world.wf(),
    ensures
        outcome_in(start::<A>(root), world) == resolve(root, world),
        start::<A>(root) matches StateSpec::Running(stack) ==> settled(stack),
{
    let frame = FrameSpec::<A> {
        kind: FrameKindSpec::Root,
        direct: root.direct,
        extends: root.extends,
        resolved: Seq::empty(),
    };
    let stack = seq![frame];
    lemma_settle(stack, world);
    lemma_settle_settled(stack);
    assert(stack.drop_last() =~= Seq::<FrameSpec<A>>::empty());
    lemma_chain_of_push(Seq::empty(), frame);
    assert(stack =~= Seq::<FrameSpec<A>>::empty().push(frame));
    assert(chain_of(stack) =~= Seq::<Seq<char>>::empty());
    match resolve(root, world) {
        Ok(items) => {
            assert(frame.resolved + items =~= items);
        },
        Err(_) => {},
    }
}

/// An answer on markup that agrees with `world` changes nothing of what
/// resolution ends in, and leaves one request fewer to make.
pub proof fn lemma_step_markup<A>(
    state: StateSpec<A>,
    parsed: Result<MarkupSpec<A>, Seq<char>>,
    world: World<A>,
)
    requires
        world.wf(),
        request(state) matches RequestSpec::Markup(name) && (world.markup)(name) == parsed,
    ensures
        outcome_in(step_markup(state, parsed), world) == outcome_in(state, world),
        asks(step_markup(state, parsed), world) + 1 == asks(state, world),
        step_markup(state, parsed) matches StateSpec::Running(stack) ==> settled(stack),
{
    let stack = state->Running_0;
    let top = stack.last();
    let below = stack.drop_last();
    let entry = top.direct[0];
    let chain = chain_of(stack);
    let rest = resolve_rest(top.direct.drop_first(), top.extends, chain, world);
    match parsed {
        Err(_) => {},
        Ok(markup) => match entry.content {
            EntryContentSpec::Text(text) => {
                let item = resolved_item(entry.name, markup, ContentSpec::<A>::Text(text));
                let next = FrameSpec {
                    direct: top.direct.drop_first(),
                    resolved: top.resolved.push(item),
                    ..top
                };
                let after_stack = below.push(next);
                lemma_settle(after_stack, world);
                lemma_settle_settled(after_stack);
                lemma_chain_of_push(below, next);
                lemma_chain_of_push(below, top);
                assert(stack =~= below.push(top));
                assert(after_stack.drop_last() =~= below);
                match rest {
                    Ok(more) => {
                        assert(top.resolved + (seq![item] + more) =~= top.resolved.push(item)
                            + more);
                    },
                    Err(_) => {},
                }
                assert(resolve_rest(top.direct, top.extends, chain, world) == after(seq![item], rest));
                assert(complete(after_stack, world) == complete(stack, world));
                assert(asks_complete(after_stack, world) + 1 == asks_complete(stack, world));
            },
            EntryContentSpec::Items(node) => {
                let waiting = FrameSpec { direct: top.direct.drop_first(), ..top };
                let kind = FrameKindSpec::Submenu { name: entry.name, markup };
                let entered = FrameSpec {
                    kind,
                    direct: node.direct,
                    extends: node.extends,
                    resolved: Seq::empty(),
                };
                let after_stack = below.push(waiting).push(entered);
                lemma_settle(after_stack, world);
                lemma_settle_settled(after_stack);
                lemma_chain_of_push(below.push(waiting), entered);
                lemma_chain_of_push(below, waiting);
                lemma_chain_of_push(below, top);
                assert(stack =~= below.push(top));
                assert(after_stack.drop_last() =~= below.push(waiting));
                assert(below.push(waiting).drop_last() =~= below);
                match resolve_rest(node.direct, node.extends, chain, world) {
                    Err(_) => {},
                    Ok(nested) => {
                        let item = resolved_item(entry.name, markup, ContentSpec::Items(nested));
                        assert(entered.resolved + nested =~= nested);
                        let back = below.push(merged(waiting, kind, nested));
                        lemma_chain_of_push(below, merged(waiting, kind, nested));
                        assert(back.drop_last() =~= below);
                        match rest {
                            Ok(more) => {
                                assert(top.resolved + (seq![item] + more) =~= top.resolved.push(
                                    item,
                                ) + more);
                            },
                            Err(_) => {},
                        }
                        assert(complete(back, world) == complete(stack, world));
                        assert(complete(after_stack, world) == complete(back, world));
                        assert(asks_complete(after_stack, world) == asks_rest(
                            node.direct,
                            node.extends,
                            chain,
                            world,
                        ) + asks_complete(back, world));
                    },
                }
                assert(complete(after_stack, world) == complete(stack, world));
                assert(asks_complete(after_stack, world) + 1 == asks_complete(stack, world));
            },
        },
    }
}

/// An outcome of loading a fragment that agrees with `world` changes nothing
/// of what resolution ends in, and leaves one request fewer to make.
pub proof fn lemma_step_fragment<A>(
    state: StateSpec<A>,
    loaded: Result<NodeSpec, FragmentErrorSpec>,
    world: World<A>,
)
    requires
        world.wf(),
        state matches StateSpec::Running(stack) && settled(stack),
        request(state) matches RequestSpec::Fragment(reference) && world.load(reference) == loaded,
    ensures
        outcome_in(step_fragment(state, loaded), world) == outcome_in(state, world),
        asks(step_fragment(state, loaded), world) + 1 == asks(state, world),
        step_fragment(state, loaded) matches StateSpec::Running(stack) ==> settled(stack),
{
    let stack = state->Running_0;
    let top = stack.last();
    let below = stack.drop_last();
    let reference = top.extends[0];
    let chain = chain_of(stack);
    let rest = resolve_rest(top.direct, top.extends.drop_first(), chain, world);
    match loaded {
        Err(_) => {},
        Ok(node) => {
            let waiting = FrameSpec { extends: top.extends.drop_first(), ..top };
            let kind = FrameKindSpec::<A>::Include { reference };
            let entered = FrameSpec {
                kind,
                direct: node.direct,
                extends: node.extends,
                resolved: Seq::empty(),
            };
            let after_stack = below.push(waiting).push(entered);
            lemma_settle(after_stack, world);
            lemma_settle_settled(after_stack);
            lemma_chain_of_push(below.push(waiting), entered);
            lemma_chain_of_push(below, waiting);
            lemma_chain_of_push(below, top);
            assert(stack =~= below.push(top));
            assert(after_stack.drop_last() =~= below.push(waiting));
            assert(below.push(waiting).drop_last() =~= below);
            match resolve_rest(node.direct, node.extends, chain.push(reference), world) {
                Err(_) => {},
                Ok(included) => {
                    assert(entered.resolved + included =~= included);
                    let back = below.push(merged(waiting, kind, included));
                    lemma_chain_of_push(below, merged(waiting, kind, included));
                    assert(back.drop_last() =~= below);
                    match rest {
                        Ok(more) => {
                            assert(top.resolved + (included + more) =~= (top.resolved + included)
                                + more);
                        },
                        Err(_) => {},
                    }
                    assert(resolve_rest(top.direct, top.extends, chain, world) == after(
                        included,
                        rest,
                    ));
                    assert(complete(back, world) == complete(stack, world));
                    assert(complete(after_stack, world) == complete(back, world));
                    assert(asks_complete(after_stack, world) == asks_rest(
                        node.direct,
                        node.extends,
                        chain.push(reference),
                        world,
                    ) + asks_complete(back, world));
                },
            }
            assert(complete(after_stack, world) == complete(stack, world));
            assert(asks_complete(after_stack, world) + 1 == asks_complete(stack, world));
        },
    }
}

/// The state after the outside, answering as `world` does, has answered what
/// a resolver in `state` asks for.
pub open spec fn answered<A>(state: StateSpec<A>, world: World<A>) -> StateSpec<A> {
    match request(state) {
        RequestSpec::Markup(name) => step_markup(state, (world.markup)(name)),
        RequestSpec::Fragment(reference) => step_fragment(state, world.load(reference)),
        RequestSpec::Nothing => state,
    }
}

/// The state after `steps` answers of the outside, which answers as `world`
/// does.
pub open spec fn run<A>(state: StateSpec<A>, world: World<A>, steps: nat) -> StateSpec<A>
    decreases steps,
{
    if steps == 0 {
        state
    } else {
        run(answered(state, world), world, (steps - 1) as nat)
    }
}

/// Whether a state is one that a resolver can be in: while resolution runs,
/// the innermost node has something to ask for.
pub open spec fn reachable<A>(state: StateSpec<A>) -> bool {
    state matches StateSpec::Running(stack) ==> settled(stack)
}

/// Answers that agree with `world` never change what resolution ends in.
pub proof fn lemma_run<A>(state: StateSpec<A>, world: World<A>, steps: nat)
    requires
        world.wf(),
        reachable(state),
    ensures
        reachable(run(state, world, steps)),
        outcome_in(run(state, world, steps), world) == outcome_in(state, world),
    decreases steps,
{
    if steps > 0 {
        match request(state) {
            RequestSpec::Markup(name) => {
                lemma_step_markup(state, (world.markup)(name), world);
            },
            RequestSpec::Fragment(reference) => {
                lemma_step_fragment(state, world.load(reference), world);
            },
            RequestSpec::Nothing => {},
        }
        lemma_run(answered(state, world), world, (steps - 1) as nat);
    }
}

/// A resolution of `root` that has ended, after any number of answers that
/// agree with `world`, has ended in what `resolve` says of `root` and
/// `world`.
pub proof fn lemma_resolution<A>(root: NodeSpec, world: World<A>, steps: nat)
    requires
        world.wf(),
    ensures
        run(start::<A>(root), world, steps) matches StateSpec::Finished(end) ==> end == resolve(
            root,
            world,
        ),
{
    lemma_start::<A>(root, world);
    lemma_run(start::<A>(root), world, steps);
}

/// Once resolution has ended, answers change nothing.
pub proof fn lemma_run_finished<A>(state: StateSpec<A>, world: World<A>, steps: nat)
    requires
        state is Finished,
    ensures
        run(state, world, steps) == state,
    decreases steps,
{
    if steps > 0 {
        lemma_run_finished(state, world, (steps - 1) as nat);
    }
}

/// Resolution ends: after as many answers that agree with `world` as `asks`
/// counts, and after any more, a resolver has ended in what `outcome_in`
/// says.
pub proof fn lemma_run_ends<A>(state: StateSpec<A>, world: World<A>, steps: nat)
    requires
        world.wf(),
        reachable(state),
        steps >= asks(state, world),
    ensures
        run(state, world, steps) == StateSpec::Finished(outcome_in(state, world)),
    decreases steps,
{
    match state {
        StateSpec::Finished(_) => {
            lemma_run_finished(state, world, steps);
        },
        StateSpec::Running(stack) => {
            match request(state) {
                RequestSpec::Markup(name) => {
                    lemma_step_markup(state, (world.markup)(name), world);
                },
                RequestSpec::Fragment(reference) => {
                    lemma_step_fragment(state, world.load(reference), world);
                },
                RequestSpec::Nothing => {},
            }
            lemma_run_ends(answered(state, world), world, (steps - 1) as nat);
        },
    }
}

/// In a world of finitely many fragments every resolution ends, whatever
/// the fragments extend: after as many answers that agree with `world` as
/// `asks` counts, the resolver has ended in what `resolve` says of `root`
/// and `world`.
pub proof fn lemma_resolution_ends<A>(root: NodeSpec, world: World<A>)
    requires
        world.wf(),
    ensures
        run(start::<A>(root), world, asks(start::<A>(root), world)) == StateSpec::Finished(
            resolve(root, world),
        ),
{
    lemma_start::<A>(root, world);
    lemma_run_ends(start::<A>(root), world, asks(start::<A>(root), world));
}

} // verus!
