//! Deferred batches: descendants of an adopted container that lie in a
//! later source window than the container itself, gathered with the
//! chain of containers above them, and split among the branches of the
//! control region whose windows they fall in.

use std::collections::HashMap;

use vstd::prelude::*;

use crate::adoption::{AdoptionPlan, ParentShape, PlanView};
use crate::layout::{branch_target, branch_window};
use crate::child_index::{
    crossing_members, lemma_lists_exactly_unique, lists_crossing, lists_window, window_members,
};
use crate::domain::{EntryKey, PathCondition};
use crate::predicate::PredicateView;
use crate::syntax::{ControlBranch, ControlRegion, Node};
use crate::window::SourceWindow;

verus! {

/// The evaluated header of a parent container: a mapping key or a
/// sequence dash.
#[derive(Debug)]
pub enum ParentShell {
    Entry(EntryKey),
    Item,
}

/// One evaluated shell of a parent container with the condition it was
/// rendered under.
#[derive(Debug)]
pub struct ParentShellArm {
    pub source_start: usize,
    pub condition: PathCondition,
    pub shell: ParentShell,
}

/// One source container whose evaluated shells may own a deferred batch.
#[derive(Clone, Copy, Debug)]
pub struct DeferredParent<'n> {
    pub shape: ParentShape,
    pub arms: &'n [ParentShellArm],
}

impl<'n> DeferredParent<'n> {
    /// The container's indent.
    pub fn indent(&self) -> (indent: usize)
        ensures
            indent == self.shape.indent,
    {
        self.shape.indent
    }

    /// Whether output at the container's own indent belongs inside it.
    pub fn accepts_same_indent(&self) -> (accepts: bool)
        ensures
            accepts == self.shape.accepts_same_indent,
    {
        self.shape.accepts_same_indent
    }
}

/// A chain of parents selected under one condition.
#[derive(Debug)]
pub struct GuardedParentChain<'n> {
    pub condition: PathCondition,
    pub parents: Vec<DeferredParent<'n>>,
}

/// One batch of deferred descendants in an exact source window; the
/// container chain is in document order, outermost first.
#[derive(Debug)]
pub struct DeferredNodes<'n> {
    pub chain: Vec<DeferredParent<'n>>,
    pub resolved_chains: Vec<GuardedParentChain<'n>>,
    pub nodes: Vec<&'n Node>,
    pub window: SourceWindow,
    pub defer_end: Option<usize>,
    pub omitted_control: Option<usize>,
}

/// A parent as a value: its shape and its shells.
pub type ParentView = (ParentShape, Seq<ParentShellArm>);

pub open spec fn parent_view(p: DeferredParent) -> ParentView {
    (p.shape, p.arms@)
}

pub open spec fn chain_view(chain: Seq<DeferredParent>) -> Seq<ParentView> {
    chain.map_values(|p: DeferredParent| parent_view(p))
}

/// A batch as a value.
pub struct BatchView {
    pub chain: Seq<ParentView>,
    pub resolved: Seq<(PredicateView, Seq<ParentView>)>,
    pub nodes: Seq<Node>,
    pub window: SourceWindow,
    pub defer_end: Option<usize>,
    pub omitted_control: Option<usize>,
}

pub open spec fn nodes_view(nodes: Seq<&Node>) -> Seq<Node> {
    nodes.map_values(|r: &Node| *r)
}

pub open spec fn resolved_view(chains: Seq<GuardedParentChain>) -> Seq<(PredicateView, Seq<ParentView>)> {
    chains.map_values(|c: GuardedParentChain| (c.condition@, chain_view(c.parents@)))
}

pub open spec fn batch_view(d: DeferredNodes) -> BatchView {
    BatchView {
        chain: chain_view(d.chain@),
        resolved: resolved_view(d.resolved_chains@),
        nodes: nodes_view(d.nodes@),
        window: d.window,
        defer_end: d.defer_end,
        omitted_control: d.omitted_control,
    }
}

pub open spec fn batches_view(s: Seq<DeferredNodes>) -> Seq<BatchView> {
    s.map_values(|d: DeferredNodes| batch_view(d))
}

/// The shells recorded for container `start`.
pub open spec fn shells_at(shells: Map<usize, Vec<ParentShellArm>>, start: usize) -> Seq<ParentShellArm> {
    if shells.contains_key(start) {
        shells[start]@
    } else {
        Seq::empty()
    }
}

/// The children at the positions `idxs`, positions out of range skipped.
pub open spec fn picked(children: Seq<Node>, idxs: Seq<usize>) -> Seq<Node>
    decreases idxs.len(),
{
    if idxs.len() == 0 {
        Seq::empty()
    } else {
        let rest = picked(children, idxs.drop_last());
        if idxs.last() < children.len() {
            rest.push(children[idxs.last() as int])
        } else {
            rest
        }
    }
}

/// The deferred batches below `node` in `window`: nothing when the node's
/// content ends by the window's start or the node is a control through
/// the omitted boundary; a container's children inside the window form
/// one batch under the chain extended by the container, and its children
/// crossing the window's start are searched in turn; a control's branch
/// bodies are searched in order.
pub open spec fn deferred_from(
    node: Node,
    window: SourceWindow,
    omitted: Option<usize>,
    plan: PlanView,
    shells: Map<usize, Vec<ParentShellArm>>,
    chain: Seq<ParentView>,
) -> Seq<BatchView>
    decreases node, 2nat, 0nat,
{
    let start = node.start();
    if plan.content_ends.contains_key(start) && plan.content_ends[start] <= window.start {
        Seq::empty()
    } else {
        match node {
            Node::Control(region) => if omitted matches Some(o) && region.span.start <= o {
                Seq::empty()
            } else {
                deferred_branches(region.branches@, region.branches@.len() as int, window, omitted, plan, shells, chain)
            },
            Node::Mapping(entry) => deferred_container(start, entry.children@, window, omitted, plan, shells, chain),
            Node::Sequence(item) => deferred_container(start, item.children@, window, omitted, plan, shells, chain),
            _ => Seq::empty(),
        }
    }
}

/// The deferred batches of container `start` with `children`.
pub open spec fn deferred_container(
    start: usize,
    children: Seq<Node>,
    window: SourceWindow,
    omitted: Option<usize>,
    plan: PlanView,
    shells: Map<usize, Vec<ParentShellArm>>,
    chain: Seq<ParentView>,
) -> Seq<BatchView>
    decreases children, 1nat, 0nat,
{
    if !plan.parent_shapes.contains_key(start) {
        Seq::empty()
    } else {
        let inner = chain.push((plan.parent_shapes[start], shells_at(shells, start)));
        let indexed = plan.child_indexes.contains_key(start);
        let beyond = if indexed {
            picked(children, window_members(plan.child_indexes[start], window))
        } else {
            Seq::empty()
        };
        let first = if beyond.len() > 0 {
            seq![BatchView { chain: inner, resolved: Seq::empty(), nodes: beyond, window, defer_end: window.end, omitted_control: omitted }]
        } else {
            Seq::empty()
        };
        let crossing = if indexed {
            crossing_members(plan.child_indexes[start], window.start)
        } else {
            Seq::empty()
        };
        first + deferred_picked(children, crossing, crossing.len() as int, window, omitted, plan, shells, inner)
    }
}

/// The deferred batches below the first `j` children at positions `idxs`.
pub open spec fn deferred_picked(
    children: Seq<Node>,
    idxs: Seq<usize>,
    j: int,
    window: SourceWindow,
    omitted: Option<usize>,
    plan: PlanView,
    shells: Map<usize, Vec<ParentShellArm>>,
    chain: Seq<ParentView>,
) -> Seq<BatchView>
    decreases children, 0nat, j,
{
    if j <= 0 || j > idxs.len() {
        Seq::empty()
    } else {
        let before = deferred_picked(children, idxs, j - 1, window, omitted, plan, shells, chain);
        let i = idxs[j - 1];
        if i < children.len() {
            before + deferred_from(children[i as int], window, omitted, plan, shells, chain)
        } else {
            before
        }
    }
}

/// The deferred batches below the first `j` branches' bodies.
pub open spec fn deferred_branches(
    branches: Seq<ControlBranch>,
    j: int,
    window: SourceWindow,
    omitted: Option<usize>,
    plan: PlanView,
    shells: Map<usize, Vec<ParentShellArm>>,
    chain: Seq<ParentView>,
) -> Seq<BatchView>
    decreases branches, 1nat, j,
{
    if j <= 0 || j > branches.len() {
        Seq::empty()
    } else {
        deferred_branches(branches, j - 1, window, omitted, plan, shells, chain) + deferred_body(
            branches[j - 1].body@,
            branches[j - 1].body@.len() as int,
            window,
            omitted,
            plan,
            shells,
            chain,
        )
    }
}

/// The deferred batches below the first `k` nodes of a branch body.
pub open spec fn deferred_body(
    body: Seq<Node>,
    k: int,
    window: SourceWindow,
    omitted: Option<usize>,
    plan: PlanView,
    shells: Map<usize, Vec<ParentShellArm>>,
    chain: Seq<ParentView>,
) -> Seq<BatchView>
    decreases body, 0nat, k,
{
    if k <= 0 || k > body.len() {
        Seq::empty()
    } else {
        deferred_body(body, k - 1, window, omitted, plan, shells, chain) + deferred_from(
            body[k - 1],
            window,
            omitted,
            plan,
            shells,
            chain,
        )
    }
}

/// Whether a batch was gathered in `window` below `chain`: it keeps the
/// window, its end as the deferral bound and the omitted boundary, holds
/// nodes, resolves no alternative chains yet, and its chain extends `chain`
/// by at least the container that owns it.
pub open spec fn batch_under(b: BatchView, window: SourceWindow, omitted: Option<usize>, chain: Seq<ParentView>) -> bool {
    &&& b.window == window
    &&& b.defer_end == window.end
    &&& b.omitted_control == omitted
    &&& b.nodes.len() > 0
    &&& b.resolved.len() == 0
    &&& b.chain.len() > chain.len()
    &&& b.chain.take(chain.len() as int) == chain
}

/// Whether every batch of `s` was gathered in `window` below `chain`.
pub open spec fn all_under(s: Seq<BatchView>, window: SourceWindow, omitted: Option<usize>, chain: Seq<ParentView>) -> bool {
    forall|i: int| 0 <= i < s.len() ==> batch_under(#[trigger] s[i], window, omitted, chain)
}

proof fn lemma_all_under_concat(
    a: Seq<BatchView>,
    b: Seq<BatchView>,
    window: SourceWindow,
    omitted: Option<usize>,
    chain: Seq<ParentView>,
)
    requires
        all_under(a, window, omitted, chain),
        all_under(b, window, omitted, chain),
    ensures
        all_under(a + b, window, omitted, chain),
{
    assert forall|i: int| 0 <= i < (a + b).len() implies batch_under(#[trigger] (a + b)[i], window, omitted, chain) by {
        if i < a.len() {
            assert((a + b)[i] == a[i]);
        } else {
            assert((a + b)[i] == b[i - a.len()]);
        }
    }
}

proof fn lemma_all_under_shorter(
    s: Seq<BatchView>,
    window: SourceWindow,
    omitted: Option<usize>,
    chain: Seq<ParentView>,
    x: ParentView,
)
    requires
        all_under(s, window, omitted, chain.push(x)),
    ensures
        all_under(s, window, omitted, chain),
{
    assert forall|i: int| 0 <= i < s.len() implies batch_under(#[trigger] s[i], window, omitted, chain) by {
        let b = s[i];
        assert(batch_under(b, window, omitted, chain.push(x)));
        assert(b.chain.take(chain.len() as int) =~= b.chain.take(chain.len() + 1int).take(chain.len() as int));
        assert(chain.push(x).take(chain.len() as int) =~= chain);
    }
}

/// Every batch deferred below `node` keeps the window, its end and the
/// omitted boundary, holds nodes, and sits below `chain` and at least one
/// container more.
pub proof fn lemma_deferred_from_under(
    node: Node,
    window: SourceWindow,
    omitted: Option<usize>,
    plan: PlanView,
    shells: Map<usize, Vec<ParentShellArm>>,
    chain: Seq<ParentView>,
)
    ensures
        all_under(deferred_from(node, window, omitted, plan, shells, chain), window, omitted, chain),
    decreases node, 2nat, 0nat,
{
    let start = node.start();
    if plan.content_ends.contains_key(start) && plan.content_ends[start] <= window.start {
    } else {
        match node {
            Node::Control(region) => if omitted matches Some(o) && region.span.start <= o {
            } else {
                lemma_deferred_branches_under(region.branches@, region.branches@.len() as int, window, omitted, plan, shells, chain);
            },
            Node::Mapping(entry) => lemma_deferred_container_under(start, entry.children@, window, omitted, plan, shells, chain),
            Node::Sequence(item) => lemma_deferred_container_under(start, item.children@, window, omitted, plan, shells, chain),
            _ => {},
        }
    }
}

proof fn lemma_deferred_container_under(
    start: usize,
    children: Seq<Node>,
    window: SourceWindow,
    omitted: Option<usize>,
    plan: PlanView,
    shells: Map<usize, Vec<ParentShellArm>>,
    chain: Seq<ParentView>,
)
    ensures
        all_under(deferred_container(start, children, window, omitted, plan, shells, chain), window, omitted, chain),
    decreases children, 1nat, 0nat,
{
    if plan.parent_shapes.contains_key(start) {
        let x = (plan.parent_shapes[start], shells_at(shells, start));
        let inner = chain.push(x);
        let indexed = plan.child_indexes.contains_key(start);
        let beyond = if indexed {
            picked(children, window_members(plan.child_indexes[start], window))
        } else {
            Seq::empty()
        };
        let first = if beyond.len() > 0 {
            seq![BatchView { chain: inner, resolved: Seq::empty(), nodes: beyond, window, defer_end: window.end, omitted_control: omitted }]
        } else {
            Seq::empty()
        };
        let crossing = if indexed {
            crossing_members(plan.child_indexes[start], window.start)
        } else {
            Seq::empty()
        };
        assert(inner.take(chain.len() as int) =~= chain);
        assert(all_under(first, window, omitted, chain));
        lemma_deferred_picked_under(children, crossing, crossing.len() as int, window, omitted, plan, shells, inner);
        lemma_all_under_shorter(
            deferred_picked(children, crossing, crossing.len() as int, window, omitted, plan, shells, inner),
            window,
            omitted,
            chain,
            x,
        );
        lemma_all_under_concat(
            first,
            deferred_picked(children, crossing, crossing.len() as int, window, omitted, plan, shells, inner),
            window,
            omitted,
            chain,
        );
    }
}

proof fn lemma_deferred_picked_under(
    children: Seq<Node>,
    idxs: Seq<usize>,
    j: int,
    window: SourceWindow,
    omitted: Option<usize>,
    plan: PlanView,
    shells: Map<usize, Vec<ParentShellArm>>,
    chain: Seq<ParentView>,
)
    ensures
        all_under(deferred_picked(children, idxs, j, window, omitted, plan, shells, chain), window, omitted, chain),
    decreases children, 0nat, j,
{
    if j > 0 && j <= idxs.len() {
        lemma_deferred_picked_under(children, idxs, j - 1, window, omitted, plan, shells, chain);
        let i = idxs[j - 1];
        if i < children.len() {
            lemma_deferred_from_under(children[i as int], window, omitted, plan, shells, chain);
            lemma_all_under_concat(
                deferred_picked(children, idxs, j - 1, window, omitted, plan, shells, chain),
                deferred_from(children[i as int], window, omitted, plan, shells, chain),
                window,
                omitted,
                chain,
            );
        }
    }
}

proof fn lemma_deferred_branches_under(
    branches: Seq<ControlBranch>,
    j: int,
    window: SourceWindow,
    omitted: Option<usize>,
    plan: PlanView,
    shells: Map<usize, Vec<ParentShellArm>>,
    chain: Seq<ParentView>,
)
    ensures
        all_under(deferred_branches(branches, j, window, omitted, plan, shells, chain), window, omitted, chain),
    decreases branches, 1nat, j,
{
    if j > 0 && j <= branches.len() {
        lemma_deferred_branches_under(branches, j - 1, window, omitted, plan, shells, chain);
        let body = branches[j - 1].body@;
        lemma_deferred_body_under(body, body.len() as int, window, omitted, plan, shells, chain);
        lemma_all_under_concat(
            deferred_branches(branches, j - 1, window, omitted, plan, shells, chain),
            deferred_body(body, body.len() as int, window, omitted, plan, shells, chain),
            window,
            omitted,
            chain,
        );
    }
}

proof fn lemma_deferred_body_under(
    body: Seq<Node>,
    k: int,
    window: SourceWindow,
    omitted: Option<usize>,
    plan: PlanView,
    shells: Map<usize, Vec<ParentShellArm>>,
    chain: Seq<ParentView>,
)
    ensures
        all_under(deferred_body(body, k, window, omitted, plan, shells, chain), window, omitted, chain),
    decreases body, 0nat, k,
{
    if k > 0 && k <= body.len() {
        lemma_deferred_body_under(body, k - 1, window, omitted, plan, shells, chain);
        lemma_deferred_from_under(body[k - 1], window, omitted, plan, shells, chain);
        lemma_all_under_concat(
            deferred_body(body, k - 1, window, omitted, plan, shells, chain),
            deferred_from(body[k - 1], window, omitted, plan, shells, chain),
            window,
            omitted,
            chain,
        );
    }
}

/// Whether a window cuts no indexed child of the plan the wrong way round:
/// either its end does not lie before its start, or no child of any
/// container starts between the end and the start.
pub open spec fn window_splits_no_child(plan: PlanView, window: SourceWindow) -> bool {
    window.end matches Some(e) ==> (e >= window.start || forall|c: usize, k: int|
        plan.child_indexes.contains_key(c) && 0 <= k < plan.child_indexes[c].len() ==> !(e
            <= #[trigger] plan.child_indexes[c][k].start < window.start))
}

/// A copy of a parent chain.
pub(crate) fn copy_chain<'n>(chain: &Vec<DeferredParent<'n>>) -> (copy: Vec<DeferredParent<'n>>)
    ensures
        copy@ == chain@,
{
    let mut copy: Vec<DeferredParent<'n>> = Vec::new();
    let mut i: usize = 0;
    while i < chain.len()
        invariant
            i <= chain@.len(),
            copy@ == chain@.take(i as int),
        decreases chain@.len() - i,
    {
        copy.push(chain[i]);
        proof {
            assert(chain@.take(i + 1) =~= chain@.take(i as int).push(chain@[i as int]));
        }
        i += 1;
    }
    proof {
        assert(chain@.take(chain@.len() as int) =~= chain@);
    }
    copy
}

/// Append `d` to `out`.
fn push_batch<'n>(out: &mut Vec<DeferredNodes<'n>>, d: DeferredNodes<'n>)
    ensures
        batches_view(final(out)@) == batches_view(old(out)@).push(batch_view(d)),
{
    out.push(d);
    proof {
        assert(batches_view(out@) =~= batches_view(old(out)@).push(batch_view(d)));
    }
}

/// Collect the descendants of `node` that lie in `window` with the chain
/// of containers above them (outermost first): every container on the way
/// contributes its children starting inside the window as one batch, and
/// the search continues into the children that cross the window's start.
/// Controls through the omitted boundary own their branch bodies
/// separately and are not revisited.
pub fn collect_deferred<'n>(
    node: &'n Node,
    window: SourceWindow,
    omitted_control: Option<usize>,
    plan: &AdoptionPlan,
    parent_shells: &'n HashMap<usize, Vec<ParentShellArm>>,
    chain: &mut Vec<DeferredParent<'n>>,
    out: &mut Vec<DeferredNodes<'n>>,
)
    requires
        window_splits_no_child(plan.view(), window),
    ensures
        final(chain)@ == old(chain)@,
        batches_view(final(out)@) == batches_view(old(out)@) + deferred_from(
            *node,
            window,
            omitted_control,
            plan.view(),
            parent_shells@,
            chain_view(old(chain)@),
        ),
    decreases node, 1nat,
{
    let start = node.span_start();
    if let Some(content_end) = plan.content_end(start) {
        if content_end <= window.start {
            proof {
                assert(batches_view(out@) =~= batches_view(old(out)@) + Seq::<BatchView>::empty());
            }
            return;
        }
    }
    match node {
        Node::Control(region) => {
            if let Some(omitted) = omitted_control {
                if region.span.start <= omitted {
                    proof {
                        assert(batches_view(out@) =~= batches_view(old(out)@) + Seq::<BatchView>::empty());
                    }
                    return;
                }
            }
            collect_deferred_branches(region, window, omitted_control, plan, parent_shells, chain, out);
        },
        Node::Mapping(entry) => {
            collect_deferred_container(start, &entry.children, window, omitted_control, plan, parent_shells, chain, out);
        },
        Node::Sequence(item) => {
            collect_deferred_container(start, &item.children, window, omitted_control, plan, parent_shells, chain, out);
        },
        _ => {
            proof {
                assert(batches_view(out@) =~= batches_view(old(out)@) + Seq::<BatchView>::empty());
            }
        },
    }
}

/// The deferred batches of container `start` with `children`.
fn collect_deferred_container<'n>(
    start: usize,
    children: &'n Vec<Node>,
    window: SourceWindow,
    omitted_control: Option<usize>,
    plan: &AdoptionPlan,
    parent_shells: &'n HashMap<usize, Vec<ParentShellArm>>,
    chain: &mut Vec<DeferredParent<'n>>,
    out: &mut Vec<DeferredNodes<'n>>,
)
    requires
        window_splits_no_child(plan.view(), window),
    ensures
        final(chain)@ == old(chain)@,
        batches_view(final(out)@) == batches_view(old(out)@) + deferred_container(
            start,
            children@,
            window,
            omitted_control,
            plan.view(),
            parent_shells@,
            chain_view(old(chain)@),
        ),
    decreases children@, 0nat,
{
    broadcast use vstd::std_specs::hash::group_hash_axioms;
    let ghost pv = plan.view();
    let ghost shells = parent_shells@;
    let ghost out0 = batches_view(out@);
    let ghost chain0 = chain@;
    let shape = match plan.parent_shape(start) {
        Some(shape) => shape,
        None => {
            proof {
                assert(batches_view(out@) =~= out0 + Seq::<BatchView>::empty());
            }
            return;
        },
    };
    let arms: &'n [ParentShellArm] = match parent_shells.get(&start) {
        Some(arms) => arms.as_slice(),
        None => &[],
    };
    proof {
        assert(arms@ == shells_at(shells, start));
    }
    chain.push(DeferredParent { shape, arms });
    let ghost pushed = chain@;
    let ghost inner = chain_view(chain@);
    proof {
        assert(inner =~= chain_view(chain0).push((pv.parent_shapes[start], shells_at(shells, start))));
    }
    match plan.child_index(start) {
        None => {
            proof {
                assert(batches_view(out@) =~= out0 + deferred_container(start, children@, window,
                    omitted_control, pv, shells, chain_view(chain0)));
            }
        },
        Some(index) => {
            let ghost kids = index.children();
            let found = index.in_window(window);
            proof {
                assert(lists_window(found@, kids, window));
                assert(lists_window(window_members(kids, window), kids, window));
                lemma_lists_exactly_unique(found@, window_members(kids, window), kids,
                    |k: int| window.spec_contains(kids[k].start as int));
            }
            let mut beyond: Vec<&'n Node> = Vec::new();
            let mut q: usize = 0;
            while q < found.len()
                invariant
                    q <= found@.len(),
                    nodes_view(beyond@) == picked(children@, found@.take(q as int)),
                decreases found@.len() - q,
            {
                let i = found[q];
                proof {
                    assert(found@.take(q + 1).drop_last() =~= found@.take(q as int));
                    assert(found@.take(q + 1).last() == i);
                }
                if i < children.len() {
                    let ghost b0 = beyond@;
                    beyond.push(&children[i]);
                    proof {
                        assert(nodes_view(beyond@) =~= nodes_view(b0).push(children@[i as int]));
                    }
                }
                q += 1;
            }
            proof {
                assert(found@.take(found@.len() as int) =~= found@);
            }
            let ghost first = if beyond@.len() > 0 {
                seq![BatchView { chain: inner, resolved: Seq::empty(), nodes: nodes_view(beyond@), window,
                    defer_end: window.end, omitted_control }]
            } else {
                Seq::<BatchView>::empty()
            };
            if beyond.len() > 0 {
                let batch = DeferredNodes {
                    chain: copy_chain(chain),
                    resolved_chains: Vec::new(),
                    nodes: beyond,
                    window,
                    defer_end: window.end,
                    omitted_control,
                };
                proof {
                    assert(resolved_view(batch.resolved_chains@) =~= Seq::<(PredicateView, Seq<ParentView>)>::empty());
                    assert(batch_view(batch) == first[0]);
                }
                push_batch(out, batch);
            }
            proof {
                assert(batches_view(out@) =~= out0 + first);
            }
            let crossing = index.crossing(window.start);
            proof {
                assert(lists_crossing(crossing@, kids, window.start));
                assert(lists_crossing(crossing_members(kids, window.start), kids, window.start));
                lemma_lists_exactly_unique(crossing@, crossing_members(kids, window.start), kids,
                    |k: int| kids[k].start < window.start && kids[k].content_end > window.start);
            }
            let mut j: usize = 0;
            while j < crossing.len()
                invariant
                    j <= crossing@.len(),
                    window_splits_no_child(plan.view(), window),
                    chain@ == pushed,
                    chain_view(chain@) == inner,
                    batches_view(out@) == out0 + first + deferred_picked(children@, crossing@, j as int,
                        window, omitted_control, pv, shells, inner),
                    pv == plan.view(),
                    shells == parent_shells@,
                decreases crossing@.len() - j,
            {
                let i = crossing[j];
                if i < children.len() {
                    let ghost before = batches_view(out@);
                    collect_deferred(&children[i], window, omitted_control, plan, parent_shells, chain, out);
                    proof {
                        assert(batches_view(out@) =~= out0 + first + deferred_picked(children@, crossing@,
                            j + 1, window, omitted_control, pv, shells, inner));
                    }
                }
                j += 1;
            }
        },
    }
    chain.pop();
    proof {
        assert(pushed.drop_last() =~= chain0);
    }
}

/// The deferred batches below a control region's branch bodies.
fn collect_deferred_branches<'n>(
    region: &'n ControlRegion,
    window: SourceWindow,
    omitted_control: Option<usize>,
    plan: &AdoptionPlan,
    parent_shells: &'n HashMap<usize, Vec<ParentShellArm>>,
    chain: &mut Vec<DeferredParent<'n>>,
    out: &mut Vec<DeferredNodes<'n>>,
)
    requires
        window_splits_no_child(plan.view(), window),
    ensures
        final(chain)@ == old(chain)@,
        batches_view(final(out)@) == batches_view(old(out)@) + deferred_branches(
            region.branches@,
            region.branches@.len() as int,
            window,
            omitted_control,
            plan.view(),
            parent_shells@,
            chain_view(old(chain)@),
        ),
    decreases region, 0nat,
{
    let ghost out0 = batches_view(out@);
    let ghost cv = chain_view(chain@);
    let ghost chain0 = chain@;
    let mut j: usize = 0;
    while j < region.branches.len()
        invariant
            j <= region.branches@.len(),
            window_splits_no_child(plan.view(), window),
            chain@ == chain0,
            cv == chain_view(chain0),
            batches_view(out@) == out0 + deferred_branches(region.branches@, j as int, window, omitted_control,
                plan.view(), parent_shells@, cv),
        decreases region.branches@.len() - j,
    {
        let ghost mid = batches_view(out@);
        let mut k: usize = 0;
        while k < region.branches[j].body.len()
            invariant
                j < region.branches@.len(),
                k <= region.branches@[j as int].body@.len(),
                window_splits_no_child(plan.view(), window),
                chain@ == chain0,
                cv == chain_view(chain0),
                batches_view(out@) == mid + deferred_body(region.branches@[j as int].body@, k as int, window,
                    omitted_control, plan.view(), parent_shells@, cv),
            decreases region.branches@[j as int].body@.len() - k,
        {
            collect_deferred(&region.branches[j].body[k], window, omitted_control, plan, parent_shells, chain, out);
            proof {
                assert(batches_view(out@) =~= mid + deferred_body(region.branches@[j as int].body@, k + 1, window,
                    omitted_control, plan.view(), parent_shells@, cv));
            }
            k += 1;
        }
        proof {
            assert(batches_view(out@) =~= out0 + deferred_branches(region.branches@, j + 1, window,
                omitted_control, plan.view(), parent_shells@, cv));
        }
        j += 1;
    }
}

// ---------------------------------------------------------------------
// Splitting escaped batches among a region's branches
// ---------------------------------------------------------------------

/// Whether `node` belongs to branch `b` of `region`: it starts inside the
/// region, in the window of that branch.
pub open spec fn in_branch(region: ControlRegion, node: Node, b: int) -> bool {
    node.start() < region.span.end && branch_target(region.branches@, node.start()) == b
}

/// The nodes of branch `b`, in order.
pub open spec fn branch_nodes(region: ControlRegion, nodes: Seq<Node>, b: int) -> Seq<Node>
    decreases nodes.len(),
{
    if nodes.len() == 0 {
        Seq::empty()
    } else {
        let rest = branch_nodes(region, nodes.drop_last(), b);
        if in_branch(region, nodes.last(), b) {
            rest.push(nodes.last())
        } else {
            rest
        }
    }
}

/// The nodes at or past the region's end, in order.
pub open spec fn past_nodes(region: ControlRegion, nodes: Seq<Node>) -> Seq<Node>
    decreases nodes.len(),
{
    if nodes.len() == 0 {
        Seq::empty()
    } else {
        let rest = past_nodes(region, nodes.drop_last());
        if nodes.last().start() >= region.span.end {
            rest.push(nodes.last())
        } else {
            rest
        }
    }
}

/// The source window of branch `b`: from its header's end to the next
/// header's start (the region's bounds where there is none).
pub open spec fn branch_source_window(region: ControlRegion, b: int) -> SourceWindow {
    SourceWindow::spec_bounded(
        if b < region.branches@.len() {
            region.branches@[b].header.end
        } else {
            region.span.start
        },
        if b + 1 < region.branches@.len() {
            region.branches@[b + 1].header.start
        } else {
            region.span.end
        },
    )
}

/// What one escaped batch leaves for branch `b`: its nodes there, in the
/// batch window cut to the branch window, unless that is empty.
pub open spec fn branch_part(region: ControlRegion, batch: BatchView, b: int) -> Seq<BatchView> {
    let nodes = branch_nodes(region, batch.nodes, b);
    let window = batch.window.spec_intersect(branch_source_window(region, b));
    if nodes.len() == 0 || window.spec_is_empty() {
        Seq::empty()
    } else {
        seq![BatchView { nodes, window, ..batch }]
    }
}

/// What the escaped batches leave for branch `b`, in order.
pub open spec fn branch_batches(region: ControlRegion, escaped: Seq<BatchView>, b: int) -> Seq<BatchView>
    decreases escaped.len(),
{
    if escaped.len() == 0 {
        Seq::empty()
    } else {
        branch_batches(region, escaped.drop_last(), b) + branch_part(region, escaped.last(), b)
    }
}

/// What one escaped batch leaves past the region: its nodes there, in the
/// batch window from the region's end on.
pub open spec fn after_part(region: ControlRegion, batch: BatchView) -> Seq<BatchView> {
    let nodes = past_nodes(region, batch.nodes);
    if nodes.len() == 0 {
        Seq::empty()
    } else {
        seq![BatchView {
            nodes,
            window: batch.window.spec_intersect(SourceWindow { start: region.span.end, end: batch.window.end }),
            ..batch
        }]
    }
}

/// What the escaped batches leave past the region, in order.
pub open spec fn after_batches(region: ControlRegion, escaped: Seq<BatchView>) -> Seq<BatchView>
    decreases escaped.len(),
{
    if escaped.len() == 0 {
        Seq::empty()
    } else {
        after_batches(region, escaped.drop_last()) + after_part(region, escaped.last())
    }
}

/// A copy of resolved parent chains.
fn copy_resolved<'n>(chains: &Vec<GuardedParentChain<'n>>) -> (copy: Vec<GuardedParentChain<'n>>)
    ensures
        resolved_view(copy@) == resolved_view(chains@),
{
    let mut copy: Vec<GuardedParentChain<'n>> = Vec::new();
    let mut i: usize = 0;
    while i < chains.len()
        invariant
            i <= chains@.len(),
            resolved_view(copy@) == resolved_view(chains@.take(i as int)),
        decreases chains@.len() - i,
    {
        let c = GuardedParentChain { condition: chains[i].condition.duplicate(), parents: copy_chain(&chains[i].parents) };
        let ghost before = copy@;
        copy.push(c);
        proof {
            assert(resolved_view(copy@) =~= resolved_view(before).push((chains@[i as int].condition@,
                chain_view(chains@[i as int].parents@))));
            assert(resolved_view(chains@.take(i + 1)) =~= resolved_view(chains@.take(i as int)).push(
                (chains@[i as int].condition@, chain_view(chains@[i as int].parents@))));
        }
        i += 1;
    }
    proof {
        assert(chains@.take(chains@.len() as int) =~= chains@);
    }
    copy
}

/// The nodes of `batch` in branch `b`, in order.
fn nodes_in_branch<'n>(region: &ControlRegion, nodes: &Vec<&'n Node>, b: usize) -> (found: Vec<&'n Node>)
    ensures
        nodes_view(found@) == branch_nodes(*region, nodes_view(nodes@), b as int),
{
    let mut found: Vec<&'n Node> = Vec::new();
    let mut i: usize = 0;
    while i < nodes.len()
        invariant
            i <= nodes@.len(),
            nodes_view(found@) == branch_nodes(*region, nodes_view(nodes@.take(i as int)), b as int),
        decreases nodes@.len() - i,
    {
        let node = nodes[i];
        let start = node.span_start();
        proof {
            assert(nodes_view(nodes@.take(i + 1)).drop_last() =~= nodes_view(nodes@.take(i as int)));
            assert(nodes_view(nodes@.take(i + 1)).last() == *node);
        }
        if start < region.span.end {
            let (target, _) = branch_window(region, start);
            if target == b {
                let ghost before = found@;
                found.push(node);
                proof {
                    assert(nodes_view(found@) =~= nodes_view(before).push(*node));
                }
            }
        }
        i += 1;
    }
    proof {
        assert(nodes@.take(nodes@.len() as int) =~= nodes@);
    }
    found
}

/// The nodes of `batch` at or past the region's end, in order.
fn nodes_past<'n>(region: &ControlRegion, nodes: &Vec<&'n Node>) -> (found: Vec<&'n Node>)
    ensures
        nodes_view(found@) == past_nodes(*region, nodes_view(nodes@)),
{
    let mut found: Vec<&'n Node> = Vec::new();
    let mut i: usize = 0;
    while i < nodes.len()
        invariant
            i <= nodes@.len(),
            nodes_view(found@) == past_nodes(*region, nodes_view(nodes@.take(i as int))),
        decreases nodes@.len() - i,
    {
        let node = nodes[i];
        proof {
            assert(nodes_view(nodes@.take(i + 1)).drop_last() =~= nodes_view(nodes@.take(i as int)));
            assert(nodes_view(nodes@.take(i + 1)).last() == *node);
        }
        if node.span_start() >= region.span.end {
            let ghost before = found@;
            found.push(node);
            proof {
                assert(nodes_view(found@) =~= nodes_view(before).push(*node));
            }
        }
        i += 1;
    }
    proof {
        assert(nodes@.take(nodes@.len() as int) =~= nodes@);
    }
    found
}

/// Assign escaped batches to branch windows by span: branch `i` owns the
/// nodes from its header's end to the next header (the region's end for
/// the last branch), within the batch window cut to that branch window;
/// nodes past the region's end re-attach after the region.
pub fn split_escaped<'n>(region: &ControlRegion, escaped: Vec<DeferredNodes<'n>>) -> (split: (
    Vec<Vec<DeferredNodes<'n>>>,
    Vec<DeferredNodes<'n>>,
))
    ensures
        split.0@.len() == region.branches@.len(),
        forall|b: int|
            0 <= b < region.branches@.len() ==> batches_view(#[trigger] split.0@[b]@) == branch_batches(
                *region,
                batches_view(escaped@),
                b,
            ),
        batches_view(split.1@) == after_batches(*region, batches_view(escaped@)),
{
    let ghost ev = batches_view(escaped@);
    let mut per_branch: Vec<Vec<DeferredNodes<'n>>> = Vec::new();
    let mut b: usize = 0;
    while b < region.branches.len()
        invariant
            b <= region.branches@.len(),
            ev == batches_view(escaped@),
            per_branch@.len() == b,
            forall|q: int| 0 <= q < b ==> batches_view(#[trigger] per_branch@[q]@) == branch_batches(*region, ev, q),
        decreases region.branches@.len() - b,
    {
        let mut list: Vec<DeferredNodes<'n>> = Vec::new();
        let mut e: usize = 0;
        while e < escaped.len()
            invariant
                e <= escaped@.len(),
                b < region.branches@.len(),
                ev == batches_view(escaped@),
                batches_view(list@) == branch_batches(*region, ev.take(e as int), b as int),
            decreases escaped@.len() - e,
        {
            let spec = &escaped[e];
            let nodes = nodes_in_branch(region, &spec.nodes, b);
            proof {
                assert(ev.take(e + 1).drop_last() =~= ev.take(e as int));
                assert(ev.take(e + 1).last() == batch_view(*spec));
            }
            if nodes.len() > 0 {
                let (target, branch_source_window) = branch_window(region, nodes[0].span_start());
                proof {
                    assert(nodes_view(nodes@)[0] == *nodes@[0]);
                    lemma_branch_nodes_in(*region, batch_view(*spec).nodes, b as int, 0);
                }
                let window = spec.window.intersect(branch_source_window);
                if !window.is_empty() {
                    let batch = DeferredNodes {
                        chain: copy_chain(&spec.chain),
                        resolved_chains: copy_resolved(&spec.resolved_chains),
                        nodes,
                        window,
                        defer_end: spec.defer_end,
                        omitted_control: spec.omitted_control,
                    };
                    push_batch(&mut list, batch);
                }
            }
            proof {
                assert(batches_view(list@) =~= branch_batches(*region, ev.take(e + 1), b as int));
            }
            e += 1;
        }
        proof {
            assert(ev.take(escaped@.len() as int) =~= ev);
        }
        per_branch.push(list);
        b += 1;
    }
    let mut after: Vec<DeferredNodes<'n>> = Vec::new();
    let mut e: usize = 0;
    while e < escaped.len()
        invariant
            e <= escaped@.len(),
            ev == batches_view(escaped@),
            batches_view(after@) == after_batches(*region, ev.take(e as int)),
        decreases escaped@.len() - e,
    {
        let spec = &escaped[e];
        let past = nodes_past(region, &spec.nodes);
        proof {
            assert(ev.take(e + 1).drop_last() =~= ev.take(e as int));
            assert(ev.take(e + 1).last() == batch_view(*spec));
        }
        if past.len() > 0 {
            let window = spec.window.intersect(SourceWindow { start: region.span.end, end: spec.window.end });
            let batch = DeferredNodes {
                chain: copy_chain(&spec.chain),
                resolved_chains: copy_resolved(&spec.resolved_chains),
                nodes: past,
                window,
                defer_end: spec.defer_end,
                omitted_control: spec.omitted_control,
            };
            push_batch(&mut after, batch);
        }
        proof {
            assert(batches_view(after@) =~= after_batches(*region, ev.take(e + 1)));
        }
        e += 1;
    }
    proof {
        assert(ev.take(escaped@.len() as int) =~= ev);
    }
    (per_branch, after)
}

/// Every node [`branch_nodes`] keeps is in that branch.
proof fn lemma_branch_nodes_in(region: ControlRegion, nodes: Seq<Node>, b: int, i: int)
    requires
        0 <= i < branch_nodes(region, nodes, b).len(),
    ensures
        in_branch(region, branch_nodes(region, nodes, b)[i], b),
    decreases nodes.len(),
{
    if nodes.len() > 0 {
        let rest = branch_nodes(region, nodes.drop_last(), b);
        if i < rest.len() {
            lemma_branch_nodes_in(region, nodes.drop_last(), b, i);
        }
    }
}

// ---------------------------------------------------------------------
// Node views and branch steps
// ---------------------------------------------------------------------

/// A node with the source-window bounds of control adoption: children
/// outside the window evaluate in another branch or after the region, and
/// controls through the omitted boundary are evaluated by their owners.
#[derive(Clone, Copy, Debug)]
pub struct NodeView<'n> {
    pub node: &'n Node,
    pub window: SourceWindow,
    pub omitted_control: Option<usize>,
    pub control_cursor: usize,
}

/// One adopted escaped sibling: its bounded view plus the enclosing
/// region bound that caps the region's deferral window.
#[derive(Clone, Copy, Debug)]
pub struct Adopted<'n> {
    pub view: NodeView<'n>,
    pub defer_window: SourceWindow,
}

/// The nodes of views, in order.
pub open spec fn viewed_nodes<'n>(views: Seq<NodeView<'n>>) -> Seq<Node> {
    views.map_values(|v: NodeView<'n>| *v.node)
}

/// Whether a child evaluates inside `window` without a control through
/// the omitted boundary.
pub open spec fn in_scope(child: Node, window: SourceWindow, omitted: Option<usize>) -> bool {
    &&& window.spec_contains(child.start() as int)
    &&& !(child matches Node::Control(region) && omitted matches Some(o) && region.span.start <= o)
}

/// The children that evaluate in scope, in order.
pub open spec fn scope_children(children: Seq<Node>, window: SourceWindow, omitted: Option<usize>) -> Seq<Node>
    decreases children.len(),
{
    if children.len() == 0 {
        Seq::empty()
    } else {
        let rest = scope_children(children.drop_last(), window, omitted);
        if in_scope(children.last(), window, omitted) {
            rest.push(children.last())
        } else {
            rest
        }
    }
}

impl<'n> NodeView<'n> {
    /// `node` over the whole source, no omitted control, cursor at start.
    pub fn plain(node: &'n Node) -> (view: Self)
        ensures
            view.node == node,
            view.window == (SourceWindow { start: 0, end: None }),
            view.omitted_control is None,
            view.control_cursor == 0,
    {
        NodeView { node, window: SourceWindow::all(), omitted_control: None, control_cursor: 0 }
    }

    /// The node's children that evaluate in this view's window, with the
    /// same bounds and a fresh cursor (none for a node without children).
    pub fn in_scope_children(&self) -> (children: Vec<NodeView<'n>>)
        ensures
            viewed_nodes(children@) == match *self.node {
                Node::Mapping(entry) => scope_children(entry.children@, self.window, self.omitted_control),
                Node::Sequence(item) => scope_children(item.children@, self.window, self.omitted_control),
                _ => Seq::empty(),
            },
            forall|j: int|
                0 <= j < children@.len() ==> (#[trigger] children@[j]).window == self.window
                    && children@[j].omitted_control == self.omitted_control && children@[j].control_cursor == 0,
    {
        let nodes: &'n Vec<Node> = match self.node {
            Node::Mapping(entry) => &entry.children,
            Node::Sequence(item) => &item.children,
            _ => {
                proof {
                    assert(viewed_nodes(Seq::<NodeView<'n>>::empty()) =~= Seq::<Node>::empty());
                }
                return Vec::new();
            },
        };
        let mut out: Vec<NodeView<'n>> = Vec::new();
        let mut i: usize = 0;
        while i < nodes.len()
            invariant
                i <= nodes@.len(),
                viewed_nodes(out@) == scope_children(nodes@.take(i as int), self.window, self.omitted_control),
                forall|j: int|
                    0 <= j < out@.len() ==> (#[trigger] out@[j]).window == self.window && out@[j].omitted_control
                        == self.omitted_control && out@[j].control_cursor == 0,
            decreases nodes@.len() - i,
        {
            let child = &nodes[i];
            let mut keep = self.window.contains(child.span_start());
            if let Node::Control(region) = child {
                if let Some(omitted) = self.omitted_control {
                    if region.span.start <= omitted {
                        keep = false;
                    }
                }
            }
            proof {
                assert(nodes@.take(i + 1).drop_last() =~= nodes@.take(i as int));
                assert(nodes@.take(i + 1).last() == nodes@[i as int]);
            }
            if keep {
                let ghost before = out@;
                out.push(NodeView { node: child, window: self.window, omitted_control: self.omitted_control, control_cursor: 0 });
                proof {
                    assert(viewed_nodes(out@) =~= viewed_nodes(before).push(*child));
                }
            }
            i += 1;
        }
        proof {
            assert(nodes@.take(nodes@.len() as int) =~= nodes@);
        }
        out
    }
}

/// `s` with `v` inserted after every view whose node starts at or before
/// its node.
pub open spec fn insert_by_start<'n>(s: Seq<NodeView<'n>>, v: NodeView<'n>) -> Seq<NodeView<'n>>
    decreases s.len(),
{
    if s.len() == 0 || s.last().node.start() <= v.node.start() {
        s.push(v)
    } else {
        insert_by_start(s.drop_last(), v).push(s.last())
    }
}

/// Views sorted by their node's start, ties in order.
pub open spec fn in_start_order<'n>(views: Seq<NodeView<'n>>) -> Seq<NodeView<'n>>
    decreases views.len(),
{
    if views.len() == 0 {
        Seq::empty()
    } else {
        insert_by_start(in_start_order(views.drop_last()), views.last())
    }
}

/// `acc` with `views` inserted one by one.
pub open spec fn in_start_order_from<'n>(acc: Seq<NodeView<'n>>, views: Seq<NodeView<'n>>) -> Seq<NodeView<'n>>
    decreases views.len(),
{
    if views.len() == 0 {
        acc
    } else {
        insert_by_start(in_start_order_from(acc, views.drop_last()), views.last())
    }
}

proof fn lemma_insert_by_start_at<'n>(s: Seq<NodeView<'n>>, v: NodeView<'n>, p: int)
    requires
        0 <= p <= s.len(),
        forall|i: int| p <= i < s.len() ==> (#[trigger] s[i]).node.start() > v.node.start(),
        p > 0 ==> s[p - 1].node.start() <= v.node.start(),
    ensures
        insert_by_start(s, v) == s.take(p).push(v) + s.skip(p),
    decreases s.len(),
{
    if s.len() == p {
        assert(s.take(p) =~= s);
        assert(s.take(p).push(v) + s.skip(p) =~= s.push(v));
    } else {
        let d = s.drop_last();
        lemma_insert_by_start_at(d, v, p);
        assert(d.take(p) =~= s.take(p));
        assert((d.take(p).push(v) + d.skip(p)).push(s.last()) =~= s.take(p).push(v) + s.skip(p));
    }
}

/// Insert `v` into `list` after every view whose node starts at or before
/// its node.
fn insert_view<'n>(list: &mut Vec<NodeView<'n>>, v: NodeView<'n>)
    ensures
        final(list)@ == insert_by_start(old(list)@, v),
{
    let start = v.node.span_start();
    let mut pos = list.len();
    while pos > 0 && list[pos - 1].node.span_start() > start
        invariant
            pos <= list@.len(),
            start == v.node.start(),
            forall|i: int| pos <= i < list@.len() ==> (#[trigger] list@[i]).node.start() > start,
        decreases pos,
    {
        pos -= 1;
    }
    proof {
        lemma_insert_by_start_at(list@, v, pos as int);
    }
    list.insert(pos, v);
    proof {
        assert(list@ =~= old(list)@.take(pos as int).push(v) + old(list)@.skip(pos as int));
    }
}

/// The plain views of `body`, in order.
pub open spec fn plain_views<'n>(body: Seq<Node>, views: Seq<NodeView<'n>>) -> bool {
    &&& viewed_nodes(views) == body
    &&& forall|j: int|
        0 <= j < views.len() ==> (#[trigger] views[j]).window == (SourceWindow { start: 0, end: None })
            && views[j].omitted_control is None && views[j].control_cursor == 0
}

/// `list` is branch `b`'s list: the branch body's plain views with the
/// adopted views of that branch, sorted by start (ties: body nodes first,
/// then adopted views in order).
pub open spec fn branch_list<'n>(region: ControlRegion, adopted: Seq<Adopted<'n>>, b: int, list: Seq<NodeView<'n>>) -> bool {
    exists|body: Seq<NodeView<'n>>|
        #[trigger] plain_views(region.branches@[b].body@, body) && list == in_start_order_from(
            in_start_order(body),
            adopted_in(region, adopted, b),
        )
}

/// The adopted views that fall in branch `b` of `region`, in order.
pub open spec fn adopted_in<'n>(region: ControlRegion, adopted: Seq<Adopted<'n>>, b: int) -> Seq<NodeView<'n>>
    decreases adopted.len(),
{
    if adopted.len() == 0 {
        Seq::empty()
    } else {
        let rest = adopted_in(region, adopted.drop_last(), b);
        if branch_target(region.branches@, adopted.last().view.node.start()) == b {
            rest.push(adopted.last().view)
        } else {
            rest
        }
    }
}

/// Each branch body's nodes as plain views together with the adopted
/// views whose start falls in that branch's window, sorted by start
/// (ties: body nodes first, then adopted views in order).
pub fn branch_node_lists<'n>(region: &'n ControlRegion, adopted: &[Adopted<'n>]) -> (lists: Vec<Vec<NodeView<'n>>>)
    ensures
        lists@.len() == region.branches@.len(),
        forall|b: int| 0 <= b < region.branches@.len() ==> branch_list(*region, adopted@, b, #[trigger] lists@[b]@),
{
    let mut lists: Vec<Vec<NodeView<'n>>> = Vec::new();
    let mut b: usize = 0;
    while b < region.branches.len()
        invariant
            b <= region.branches@.len(),
            lists@.len() == b,
            forall|q: int| 0 <= q < b ==> branch_list(*region, adopted@, q, #[trigger] lists@[q]@),
        decreases region.branches@.len() - b,
    {
        let body = &region.branches[b].body;
        let mut plain: Vec<NodeView<'n>> = Vec::new();
        let mut list: Vec<NodeView<'n>> = Vec::new();
        let mut k: usize = 0;
        proof {
            assert(viewed_nodes(plain@) =~= body@.take(0));
        }
        while k < body.len()
            invariant
                k <= body@.len(),
                plain_views(body@.take(k as int), plain@),
                list@ == in_start_order(plain@),
            decreases body@.len() - k,
        {
            let v = NodeView::plain(&body[k]);
            let ghost p0 = plain@;
            plain.push(v);
            insert_view(&mut list, v);
            proof {
                assert(body@.take(k + 1) =~= body@.take(k as int).push(body@[k as int]));
                assert(viewed_nodes(plain@) =~= viewed_nodes(p0).push(body@[k as int]));
                assert(plain@.drop_last() =~= p0);
            }
            k += 1;
        }
        proof {
            assert(body@.take(body@.len() as int) =~= body@);
        }
        let ghost sorted_body = list@;
        let mut a: usize = 0;
        while a < adopted.len()
            invariant
                a <= adopted@.len(),
                b < region.branches@.len(),
                list@ == in_start_order_from(sorted_body, adopted_in(*region, adopted@.take(a as int), b as int)),
            decreases adopted@.len() - a,
        {
            let entry = adopted[a];
            let (target, _) = branch_window(region, entry.view.node.span_start());
            proof {
                assert(adopted@.take(a + 1).drop_last() =~= adopted@.take(a as int));
                assert(adopted@.take(a + 1).last() == entry);
            }
            let ghost before = list@;
            if target == b {
                insert_view(&mut list, entry.view);
            }
            proof {
                let prefix = adopted_in(*region, adopted@.take(a as int), b as int);
                if target == b {
                    assert(adopted_in(*region, adopted@.take(a + 1), b as int) == prefix.push(entry.view));
                    assert(prefix.push(entry.view).drop_last() =~= prefix);
                } else {
                    assert(adopted_in(*region, adopted@.take(a + 1), b as int) == prefix);
                }
            }
            a += 1;
        }
        proof {
            assert(adopted@.take(adopted@.len() as int) =~= adopted@);
            assert(plain_views(region.branches@[b as int].body@, plain@));
        }
        let ghost lists_before = lists@;
        lists.push(list);
        proof {
            assert(lists@[b as int]@ == in_start_order_from(in_start_order(plain@), adopted_in(*region, adopted@, b as int)));
            assert forall|q: int| 0 <= q < b + 1 implies branch_list(*region, adopted@, q, #[trigger] lists@[q]@) by {
                if q == b {
                    assert(plain_views(region.branches@[q].body@, plain@));
                } else {
                    assert(lists@[q] == lists_before[q]);
                }
            }
        }
        b += 1;
    }
    lists
}

} // verus!
