//! The steps a branch body evaluates in source order: nodes in place, or
//! batches deferred under a parent chain; how a later `if` branch defers
//! the nodes that render inside a container an earlier branch adopted; and
//! what a deferred batch leaves past its branch window.

use std::collections::HashMap;

use vstd::prelude::*;

use crate::adoption::{AdoptionPlan, ParentShape, PlanView};
use crate::deferred::{
    batch_view, batches_view, chain_view, collect_deferred, copy_chain, deferred_from, nodes_view,
    parent_view, resolved_view, shells_at, viewed_nodes, Adopted, BatchView, DeferredNodes, DeferredParent, NodeView,
    ParentShellArm, ParentView,
};
use crate::layout::{branch_target, branch_window};
use crate::placement::{deferred_node_belongs_inside, is_rendered, node_inside};
use crate::syntax::{ControlBranch, ControlKind, ControlRegion, Node, OpaqueKind};
use crate::window::SourceWindow;

verus! {

/// One step of a branch body's evaluation, in source execution order:
/// nodes evaluated in place, or a deferred batch placed under its chain.
#[derive(Debug)]
pub enum BranchStep<'n> {
    Direct(Vec<NodeView<'n>>),
    Deferred(DeferredNodes<'n>),
}

/// A branch step as a value.
pub enum StepView<'n> {
    Direct(Seq<NodeView<'n>>),
    Deferred(BatchView),
}

pub open spec fn step_view<'n>(step: BranchStep<'n>) -> StepView<'n> {
    match step {
        BranchStep::Direct(nodes) => StepView::Direct(nodes@),
        BranchStep::Deferred(batch) => StepView::Deferred(batch_view(batch)),
    }
}

pub open spec fn steps_view<'n>(steps: Seq<BranchStep<'n>>) -> Seq<StepView<'n>> {
    steps.map_values(|step: BranchStep<'n>| step_view(step))
}

/// Where a step starts: its first node's start (the largest position for
/// a step without nodes).
pub open spec fn step_start<'n>(step: StepView<'n>) -> usize {
    match step {
        StepView::Direct(nodes) => if nodes.len() > 0 { nodes[0].node.start() } else { usize::MAX },
        StepView::Deferred(batch) => if batch.nodes.len() > 0 { batch.nodes[0].start() } else { usize::MAX },
    }
}

/// `s` with `x` inserted after every step starting at or before it.
pub open spec fn insert_step<'n>(s: Seq<StepView<'n>>, x: StepView<'n>) -> Seq<StepView<'n>>
    decreases s.len(),
{
    if s.len() == 0 || step_start(s.last()) <= step_start(x) {
        s.push(x)
    } else {
        insert_step(s.drop_last(), x).push(s.last())
    }
}

/// Steps sorted by start, ties in order.
pub open spec fn steps_in_order<'n>(steps: Seq<StepView<'n>>) -> Seq<StepView<'n>>
    decreases steps.len(),
{
    if steps.len() == 0 {
        Seq::empty()
    } else {
        insert_step(steps_in_order(steps.drop_last()), steps.last())
    }
}

/// `acc` followed by `steps`, each direct step joined to a direct step
/// just before it.
pub open spec fn join_direct<'n>(acc: Seq<StepView<'n>>, steps: Seq<StepView<'n>>) -> Seq<StepView<'n>>
    decreases steps.len(),
{
    if steps.len() == 0 {
        acc
    } else {
        let joined = join_direct(acc, steps.drop_last());
        match (steps.last(), joined.last()) {
            (StepView::Direct(next), StepView::Direct(current)) => if joined.len() > 0 {
                joined.drop_last().push(StepView::Direct(current + next))
            } else {
                joined.push(steps.last())
            },
            _ => joined.push(steps.last()),
        }
    }
}

proof fn lemma_insert_step_at<'n>(s: Seq<StepView<'n>>, x: StepView<'n>, p: int)
    requires
        0 <= p <= s.len(),
        forall|i: int| p <= i < s.len() ==> step_start(#[trigger] s[i]) > step_start(x),
        p > 0 ==> step_start(s[p - 1]) <= step_start(x),
    ensures
        insert_step(s, x) == s.take(p).push(x) + s.skip(p),
    decreases s.len(),
{
    if s.len() == p {
        assert(s.take(p) =~= s);
        assert(s.take(p).push(x) + s.skip(p) =~= s.push(x));
    } else {
        let d = s.drop_last();
        lemma_insert_step_at(d, x, p);
        assert(d.take(p) =~= s.take(p));
        assert((d.take(p).push(x) + d.skip(p)).push(s.last()) =~= s.take(p).push(x) + s.skip(p));
    }
}

/// Where [`insert_step`] places `x`: after every step that starts at or
/// before it, before the trailing steps that start after it.
proof fn lemma_insert_step_shape<'n>(s: Seq<StepView<'n>>, x: StepView<'n>) -> (p: int)
    ensures
        0 <= p <= s.len(),
        insert_step(s, x) == s.take(p).push(x) + s.skip(p),
        forall|i: int| p <= i < s.len() ==> step_start(#[trigger] s[i]) > step_start(x),
        p > 0 ==> step_start(s[p - 1]) <= step_start(x),
    decreases s.len(),
{
    if s.len() == 0 || step_start(s.last()) <= step_start(x) {
        assert(s.take(s.len() as int) =~= s);
        assert(s.take(s.len() as int).push(x) + s.skip(s.len() as int) =~= s.push(x));
        s.len() as int
    } else {
        let d = s.drop_last();
        let p = lemma_insert_step_shape(d, x);
        assert(d.take(p) =~= s.take(p));
        assert((d.take(p).push(x) + d.skip(p)).push(s.last()) =~= s.take(p).push(x) + s.skip(p));
        assert forall|i: int| p <= i < s.len() implies step_start(#[trigger] s[i]) > step_start(x) by {
            if i < s.len() - 1 {
                assert(s[i] == d[i]);
            }
        }
        p
    }
}

/// Source order is a stable sort of the steps by where they start: it
/// lists step `order[i]` at position `i`, every step exactly once, starts
/// never decrease, and steps starting at the same byte keep their order.
#[verifier::spinoff_prover]
#[verifier::rlimit(40)]
pub proof fn lemma_steps_in_order_is_stable_sort<'n>(steps: Seq<StepView<'n>>) -> (order: Seq<int>)
    ensures
        order.len() == steps.len(),
        steps_in_order(steps).len() == steps.len(),
        forall|i: int| 0 <= i < order.len() ==> 0 <= #[trigger] order[i] < steps.len(),
        forall|i: int| 0 <= i < order.len() ==> #[trigger] steps_in_order(steps)[i] == steps[order[i]],
        forall|i: int, j: int| 0 <= i < j < order.len() ==> #[trigger] order[i] != #[trigger] order[j],
        forall|i: int, j: int|
            0 <= i < j < order.len() ==> step_start(#[trigger] steps_in_order(steps)[i]) <= step_start(
                #[trigger] steps_in_order(steps)[j],
            ),
        forall|i: int, j: int|
            0 <= i < j < order.len() && step_start(steps_in_order(steps)[i]) == step_start(steps_in_order(steps)[j])
                ==> #[trigger] order[i] < #[trigger] order[j],
    decreases steps.len(),
{
    if steps.len() == 0 {
        Seq::empty()
    } else {
        let d = steps.drop_last();
        let prev = lemma_steps_in_order_is_stable_sort(d);
        let s = steps_in_order(d);
        let x = steps.last();
        let p = lemma_insert_step_shape(s, x);
        let n = steps.len() - 1;
        let order = prev.take(p).push(n) + prev.skip(p);
        let r = steps_in_order(steps);
        assert(r == s.take(p).push(x) + s.skip(p));
        assert forall|i: int| 0 <= i < order.len() implies #[trigger] r[i] == steps[order[i]] by {
            if i < p {
                assert(r[i] == s[i] && order[i] == prev[i]);
                assert(steps[prev[i]] == d[prev[i]]);
            } else if i > p {
                assert(r[i] == s[i - 1] && order[i] == prev[i - 1]);
                assert(steps[prev[i - 1]] == d[prev[i - 1]]);
            }
        }
        assert forall|i: int| 0 <= i < order.len() implies 0 <= #[trigger] order[i] < steps.len() by {
            if i < p {
                assert(order[i] == prev[i]);
            } else if i > p {
                assert(order[i] == prev[i - 1]);
            }
        }
        assert forall|i: int, j: int| 0 <= i < j < order.len() implies #[trigger] order[i] != #[trigger] order[j] by {
            if i < p && j < p {
                assert(order[i] == prev[i] && order[j] == prev[j]);
            } else if i < p && j > p {
                assert(order[i] == prev[i] && order[j] == prev[j - 1]);
            } else if i > p && j > p {
                assert(order[i] == prev[i - 1] && order[j] == prev[j - 1]);
            } else if i == p {
                assert(order[j] == prev[j - 1]);
            } else {
                assert(order[i] == prev[i]);
            }
        }
        assert forall|i: int, j: int| 0 <= i < j < order.len() implies step_start(#[trigger] r[i]) <= step_start(
            #[trigger] r[j],
        ) by {
            if i < p && j < p {
                assert(r[i] == s[i] && r[j] == s[j]);
            } else if i < p && j == p {
                assert(r[i] == s[i]);
                assert(step_start(s[i]) <= step_start(s[p - 1]));
            } else if i < p {
                assert(r[i] == s[i] && r[j] == s[j - 1]);
            } else if i == p {
                assert(r[j] == s[j - 1]);
            } else {
                assert(r[i] == s[i - 1] && r[j] == s[j - 1]);
            }
        }
        assert forall|i: int, j: int|
            0 <= i < j < order.len() && step_start(r[i]) == step_start(r[j]) implies #[trigger] order[i]
                < #[trigger] order[j] by {
            if i < p && j < p {
                assert(r[i] == s[i] && r[j] == s[j]);
                assert(order[i] == prev[i] && order[j] == prev[j]);
            } else if i < p && j == p {
                assert(order[i] == prev[i]);
            } else if i < p {
                assert(r[i] == s[i] && r[j] == s[j - 1]);
                assert(order[i] == prev[i] && order[j] == prev[j - 1]);
            } else if i == p {
                assert(r[j] == s[j - 1]);
            } else {
                assert(r[i] == s[i - 1] && r[j] == s[j - 1]);
                assert(order[i] == prev[i - 1] && order[j] == prev[j - 1]);
            }
        }
        order
    }
}

/// Where a step starts.
fn start_of_step(step: &BranchStep) -> (start: usize)
    ensures
        start == step_start(step_view(*step)),
{
    match step {
        BranchStep::Direct(nodes) => if nodes.len() > 0 { nodes[0].node.span_start() } else { usize::MAX },
        BranchStep::Deferred(batch) => {
            if batch.nodes.len() > 0 {
                proof {
                    assert(nodes_view(batch.nodes@)[0] == *batch.nodes@[0]);
                }
                batch.nodes[0].span_start()
            } else {
                usize::MAX
            }
        },
    }
}

/// Order steps by where they start (ties in order), then join each direct
/// step to a direct step just before it: deferral changes where content
/// renders, never the order it is evaluated in.
pub fn source_ordered_branch_steps<'n>(steps: Vec<BranchStep<'n>>) -> (ordered: Vec<BranchStep<'n>>)
    ensures
        steps_view(ordered@) == join_direct(Seq::empty(), steps_in_order(steps_view(steps@))),
{
    let ghost initial = steps_view(steps@);
    let ghost n = initial.len();
    let mut sorted: Vec<BranchStep<'n>> = Vec::new();
    let mut source = steps;
    while source.len() > 0
        invariant
            n == initial.len(),
            source@.len() <= n,
            steps_view(source@) == initial.subrange(n - source@.len(), n as int),
            steps_view(sorted@) == steps_in_order(initial.subrange(0, n - source@.len())),
        decreases source@.len(),
    {
        let ghost k = n - source@.len();
        let ghost src = source@;
        let step = source.remove(0);
        proof {
            assert(steps_view(src)[0] == step_view(step));
            assert(initial[k] == step_view(step));
            assert(source@ =~= src.subrange(1, src.len() as int));
            assert(steps_view(source@) =~= steps_view(src).subrange(1, src.len() as int));
            assert(steps_view(source@) =~= initial.subrange(n - source@.len(), n as int));
            assert(initial.subrange(0, k + 1).drop_last() =~= initial.subrange(0, k));
            assert(initial.subrange(0, k + 1).last() == step_view(step));
        }
        let start = start_of_step(&step);
        let mut pos = sorted.len();
        while pos > 0 && start_of_step(&sorted[pos - 1]) > start
            invariant
                pos <= sorted@.len(),
                start == step_start(step_view(step)),
                forall|i: int| pos <= i < sorted@.len() ==> step_start(#[trigger] steps_view(sorted@)[i]) > start,
            decreases pos,
        {
            pos -= 1;
        }
        let ghost before = steps_view(sorted@);
        proof {
            lemma_insert_step_at(before, step_view(step), pos as int);
        }
        sorted.insert(pos, step);
        proof {
            assert(steps_view(sorted@) =~= before.take(pos as int).push(step_view(step)) + before.skip(pos as int));
        }
    }
    proof {
        assert(initial.subrange(0, n as int) =~= initial);
    }
    let ghost in_order = steps_view(sorted@);
    let ghost m = in_order.len();
    let mut ordered: Vec<BranchStep<'n>> = Vec::new();
    let mut rest = sorted;
    proof {
        assert(steps_view(ordered@) =~= join_direct(Seq::empty(), in_order.subrange(0, 0)));
    }
    while rest.len() > 0
        invariant
            m == in_order.len(),
            rest@.len() <= m,
            steps_view(rest@) == in_order.subrange(m - rest@.len(), m as int),
            steps_view(ordered@) == join_direct(Seq::empty(), in_order.subrange(0, m - rest@.len())),
        decreases rest@.len(),
    {
        let ghost k = m - rest@.len();
        let ghost src = rest@;
        let step = rest.remove(0);
        proof {
            assert(steps_view(src)[0] == step_view(step));
            assert(in_order[k] == step_view(step));
            assert(rest@ =~= src.subrange(1, src.len() as int));
            assert(steps_view(rest@) =~= steps_view(src).subrange(1, src.len() as int));
            assert(steps_view(rest@) =~= in_order.subrange(m - rest@.len(), m as int));
            assert(in_order.subrange(0, k + 1).drop_last() =~= in_order.subrange(0, k));
            assert(in_order.subrange(0, k + 1).last() == step_view(step));
        }
        let ghost joined = steps_view(ordered@);
        match step {
            BranchStep::Direct(mut next) => {
                let ghost next_view = next@;
                let last_is_direct = match ordered.last() {
                    Some(BranchStep::Direct(_)) => true,
                    _ => false,
                };
                if last_is_direct {
                    let previous = ordered.pop().unwrap();
                    match previous {
                        BranchStep::Direct(mut current) => {
                            let ghost current_view = current@;
                            current.append(&mut next);
                            ordered.push(BranchStep::Direct(current));
                            proof {
                                assert(joined.last() == StepView::Direct(current_view));
                                assert(steps_view(ordered@) =~= joined.drop_last().push(StepView::<'n>::Direct(current_view + next_view)));
                            }
                        },
                        BranchStep::Deferred(batch) => {
                            ordered.push(BranchStep::Deferred(batch));
                            proof {
                                assert(false);
                            }
                        },
                    }
                } else {
                    ordered.push(BranchStep::Direct(next));
                    proof {
                        assert(steps_view(ordered@) =~= joined.push(StepView::<'n>::Direct(next_view)));
                    }
                }
            },
            BranchStep::Deferred(batch) => {
                let ghost bv = batch_view(batch);
                ordered.push(BranchStep::Deferred(batch));
                proof {
                    assert(steps_view(ordered@) =~= joined.push(StepView::<'n>::Deferred(bv)));
                }
            },
        }
    }
    proof {
        assert(in_order.subrange(0, m as int) =~= in_order);
    }
    ordered
}

// ---------------------------------------------------------------------
// Steps of a later `if` branch that adopts escaped content
// ---------------------------------------------------------------------

/// The window of the branch of `region` that holds `node_start`.
pub open spec fn target_window(region: ControlRegion, node_start: usize) -> SourceWindow {
    let t = branch_target(region.branches@, node_start);
    SourceWindow::spec_bounded(
        if t < region.branches@.len() {
            region.branches@[t].header.end
        } else {
            region.span.start
        },
        if t + 1 < region.branches@.len() {
            region.branches@[t + 1].header.start
        } else {
            region.span.end
        },
    )
}

/// The adopted sibling whose container a later branch's content may render
/// inside: of those held by a branch before `index`, the one starting last
/// (the last of them among equal starts).
pub open spec fn adoption_candidate<'n>(
    branches: Seq<ControlBranch>,
    index: int,
    adopted: Seq<Adopted<'n>>,
) -> Option<Adopted<'n>>
    decreases adopted.len(),
{
    if adopted.len() == 0 {
        None
    } else {
        let rest = adoption_candidate(branches, index, adopted.drop_last());
        let last = adopted.last();
        if branch_target(branches, last.view.node.start()) < index && (rest matches Some(r)
            ==> r.view.node.start() <= last.view.node.start()) {
            Some(last)
        } else {
            rest
        }
    }
}

/// Whether an adopted sibling is held by a branch before `index`.
pub open spec fn adopted_before<'n>(branches: Seq<ControlBranch>, index: int, sibling: Adopted<'n>) -> bool {
    branch_target(branches, sibling.view.node.start()) < index
}

/// The candidate, when there is one, is an adopted sibling held by a branch
/// before `index`; no such sibling starts after it, and none listed after it
/// starts as late. When there is none, no adopted sibling lies in an earlier
/// branch.
pub proof fn lemma_adoption_candidate_is_latest<'n>(
    branches: Seq<ControlBranch>,
    index: int,
    adopted: Seq<Adopted<'n>>,
)
    ensures
        adoption_candidate(branches, index, adopted) is None <==> (forall|j: int|
            0 <= j < adopted.len() ==> !#[trigger] adopted_before(branches, index, adopted[j])),
        adoption_candidate(branches, index, adopted) matches Some(c) ==> exists|i: int|
            #![trigger adopted[i]]
            0 <= i < adopted.len() && adopted[i] == c && adopted_before(branches, index, c) && (forall|j: int|
                0 <= j < adopted.len() && #[trigger] adopted_before(branches, index, adopted[j])
                    ==> adopted[j].view.node.start() <= c.view.node.start()) && (forall|j: int|
                i < j < adopted.len() && #[trigger] adopted_before(branches, index, adopted[j])
                    ==> adopted[j].view.node.start() < c.view.node.start()),
    decreases adopted.len(),
{
    if adopted.len() > 0 {
        let prefix = adopted.drop_last();
        let n = adopted.len() - 1;
        lemma_adoption_candidate_is_latest(branches, index, prefix);
        let rest = adoption_candidate(branches, index, prefix);
        let last = adopted.last();
        assert(forall|j: int| 0 <= j < n ==> #[trigger] adopted[j] == prefix[j]);
        if adopted_before(branches, index, last) && (rest matches Some(r) ==> r.view.node.start()
            <= last.view.node.start()) {
            assert(adopted[n] == last);
        } else if let Some(r) = rest {
            let i = choose|i: int|
                #![trigger prefix[i]]
                0 <= i < prefix.len() && prefix[i] == r && adopted_before(branches, index, r) && (forall|j: int|
                    0 <= j < prefix.len() && #[trigger] adopted_before(branches, index, prefix[j])
                        ==> prefix[j].view.node.start() <= r.view.node.start()) && (forall|j: int|
                    i < j < prefix.len() && #[trigger] adopted_before(branches, index, prefix[j])
                        ==> prefix[j].view.node.start() < r.view.node.start());
            assert(adopted[i] == r);
        } else {
            assert(!adopted_before(branches, index, adopted[n]));
        }
    }
}

/// Each node a direct step of its own, then each escaped batch.
pub open spec fn plain_steps<'n>(nodes: Seq<NodeView<'n>>, escaped: Seq<BatchView>) -> Seq<StepView<'n>> {
    nodes.map_values(|v: NodeView<'n>| StepView::Direct(seq![v])) + escaped_steps(escaped)
}

/// Each escaped batch a deferred step.
pub open spec fn escaped_steps<'n>(escaped: Seq<BatchView>) -> Seq<StepView<'n>> {
    escaped.map_values(|b: BatchView| StepView::<'n>::Deferred(b))
}

/// Whether `node` starts where a node of `body` starts.
pub open spec fn starts_in_body(node: Node, body: Seq<Node>) -> bool {
    exists|k: int| 0 <= k < body.len() && (#[trigger] body[k]).start() == node.start()
}

/// Whether every branch of a control region has an empty body.
pub open spec fn bodiless(region: ControlRegion) -> bool {
    forall|b: int| 0 <= b < region.branches@.len() ==> (#[trigger] region.branches@[b]).body@.len() == 0
}

/// Whether `node` on its own is a batch inside the container of `shape`.
pub open spec fn lone_inside(node: Node, shape: ParentShape) -> bool {
    is_rendered(node) && node_inside(node, shape)
}

/// Whether a node shows it can render inside the parent: a control without
/// bodies proves nothing by itself, and needs one of the branch's nodes
/// inside its span to be a batch inside the parent.
pub open spec fn has_parent_evidence<'n>(node: Node, nodes: Seq<NodeView<'n>>, shape: ParentShape) -> bool {
    match node {
        Node::Control(control) => bodiless(control) ==> exists|j: int|
            0 <= j < nodes.len() && control.span.start < (#[trigger] nodes[j]).node.start() < control.span.end
                && lone_inside(*nodes[j].node, shape),
        _ => true,
    }
}

/// Whether a node is the literal text after an action on its line.
pub open spec fn is_action_line_text(node: Node) -> bool {
    node matches Node::Opaque(opaque) && opaque.kind == OpaqueKind::ActionLineText
}

/// Whether a node of the branch defers under the parent: text after an
/// action on its line goes where that action went; any other node when it
/// is one of the branch body's nodes, shows evidence, and is a batch inside
/// the parent.
pub open spec fn defers<'n>(
    view: NodeView<'n>,
    after_deferred_output: bool,
    nodes: Seq<NodeView<'n>>,
    body: Seq<Node>,
    shape: ParentShape,
) -> bool {
    if is_action_line_text(*view.node) {
        after_deferred_output
    } else {
        starts_in_body(*view.node, body) && has_parent_evidence(*view.node, nodes, shape) && lone_inside(
            *view.node,
            shape,
        )
    }
}

/// The deferred batch a node starts under `parent`, bounded by its branch's
/// window.
pub open spec fn fresh_batch(region: ControlRegion, parent: ParentView, node: Node) -> BatchView {
    let w = target_window(region, node.start());
    BatchView {
        chain: seq![parent],
        resolved: Seq::empty(),
        nodes: seq![node],
        window: w,
        defer_end: w.end,
        omitted_control: Some(region.span.start),
    }
}

/// `steps` with one more node: joined to the last step when that step is
/// of the same kind, otherwise as a new step.
pub open spec fn add_to_steps<'n>(
    steps: Seq<StepView<'n>>,
    view: NodeView<'n>,
    deferred: bool,
    region: ControlRegion,
    parent: ParentView,
) -> Seq<StepView<'n>> {
    if steps.len() > 0 && !deferred && steps.last() is Direct {
        steps.drop_last().push(StepView::Direct(steps.last()->Direct_0.push(view)))
    } else if steps.len() > 0 && deferred && steps.last() is Deferred {
        let b = steps.last()->Deferred_0;
        steps.drop_last().push(
            StepView::Deferred(
                BatchView {
                    chain: b.chain,
                    resolved: b.resolved,
                    nodes: b.nodes.push(*view.node),
                    window: b.window,
                    defer_end: b.defer_end,
                    omitted_control: b.omitted_control,
                },
            ),
        )
    } else if deferred {
        steps.push(StepView::Deferred(fresh_batch(region, parent, *view.node)))
    } else {
        steps.push(StepView::Direct(seq![view]))
    }
}

/// The steps of the first `k` nodes of a branch adopting under `parent`,
/// and whether the last of them was a deferred output.
pub open spec fn grouped_steps<'n>(
    nodes: Seq<NodeView<'n>>,
    k: int,
    region: ControlRegion,
    body: Seq<Node>,
    parent: ParentView,
) -> (Seq<StepView<'n>>, bool)
    decreases k,
{
    if k <= 0 || k > nodes.len() {
        (Seq::empty(), false)
    } else {
        let (steps, after_output) = grouped_steps(nodes, k - 1, region, body, parent);
        let view = nodes[k - 1];
        let deferred = defers(view, after_output, nodes, body, parent.0);
        (add_to_steps(steps, view, deferred, region, parent), deferred && *view.node is Output)
    }
}

/// The steps of branch `index` of `region` before they are put in source
/// order. A later branch of an `if` whose earlier branch adopted an escaped
/// container defers its nodes that render inside that container; in any
/// other case each node is a direct step of its own. The escaped batches
/// follow.
pub open spec fn branch_step_plan<'n>(
    region: ControlRegion,
    index: int,
    adopted: Seq<Adopted<'n>>,
    nodes: Seq<NodeView<'n>>,
    escaped: Seq<BatchView>,
    plan: PlanView,
    shells: Map<usize, Vec<ParentShellArm>>,
) -> Seq<StepView<'n>> {
    let fallback = plain_steps(nodes, escaped);
    if region.kind != ControlKind::If || index == 0 {
        fallback
    } else {
        match adoption_candidate(region.branches@, index, adopted) {
            None => fallback,
            Some(candidate) => {
                let start = candidate.view.node.start();
                if !plan.parent_shapes.contains_key(start) || index >= region.branches@.len() {
                    fallback
                } else {
                    let shape = plan.parent_shapes[start];
                    let parent = (shape, shells_at(shells, shape.start));
                    grouped_steps(nodes, nodes.len() as int, region, region.branches@[index].body@, parent).0
                        + escaped_steps(escaped)
                }
            },
        }
    }
}

/// The nodes a step evaluates, in order.
pub open spec fn step_nodes<'n>(step: StepView<'n>) -> Seq<Node> {
    match step {
        StepView::Direct(views) => viewed_nodes(views),
        StepView::Deferred(batch) => batch.nodes,
    }
}

/// The nodes all steps evaluate, step after step.
pub open spec fn steps_nodes<'n>(steps: Seq<StepView<'n>>) -> Seq<Node>
    decreases steps.len(),
{
    if steps.len() == 0 {
        Seq::empty()
    } else {
        steps_nodes(steps.drop_last()) + step_nodes(steps.last())
    }
}

/// The nodes of escaped batches, batch after batch.
pub open spec fn batches_nodes(escaped: Seq<BatchView>) -> Seq<Node>
    decreases escaped.len(),
{
    if escaped.len() == 0 {
        Seq::empty()
    } else {
        batches_nodes(escaped.drop_last()) + escaped.last().nodes
    }
}

proof fn lemma_steps_nodes_concat<'n>(a: Seq<StepView<'n>>, b: Seq<StepView<'n>>)
    ensures
        steps_nodes(a + b) == steps_nodes(a) + steps_nodes(b),
    decreases b.len(),
{
    if b.len() == 0 {
        assert(a + b =~= a);
        assert(steps_nodes(a) + steps_nodes(b) =~= steps_nodes(a));
    } else {
        lemma_steps_nodes_concat(a, b.drop_last());
        assert((a + b).drop_last() =~= a + b.drop_last());
        assert(steps_nodes(a) + steps_nodes(b.drop_last()) + step_nodes(b.last()) =~= steps_nodes(a) + (
        steps_nodes(b.drop_last()) + step_nodes(b.last())));
    }
}

proof fn lemma_escaped_steps_nodes<'n>(escaped: Seq<BatchView>, steps: Seq<StepView<'n>>)
    requires
        steps == escaped_steps::<'n>(escaped),
    ensures
        steps_nodes(steps) == batches_nodes(escaped),
    decreases escaped.len(),
{
    if escaped.len() > 0 {
        let shorter: Seq<StepView<'n>> = escaped_steps(escaped.drop_last());
        lemma_escaped_steps_nodes(escaped.drop_last(), shorter);
        assert(steps.drop_last() =~= shorter);
    }
}

proof fn lemma_singleton_steps_nodes<'n>(nodes: Seq<NodeView<'n>>)
    ensures
        steps_nodes(nodes.map_values(|v: NodeView<'n>| StepView::Direct(seq![v]))) == viewed_nodes(nodes),
    decreases nodes.len(),
{
    let steps = nodes.map_values(|v: NodeView<'n>| StepView::Direct(seq![v]));
    if nodes.len() > 0 {
        let d = nodes.drop_last();
        lemma_singleton_steps_nodes(d);
        assert(steps.drop_last() =~= d.map_values(|v: NodeView<'n>| StepView::Direct(seq![v])));
        assert(viewed_nodes(seq![nodes.last()]) =~= seq![*nodes.last().node]);
        assert(viewed_nodes(nodes) =~= viewed_nodes(d).push(*nodes.last().node));
    } else {
        assert(viewed_nodes(nodes) =~= Seq::<Node>::empty());
    }
}

proof fn lemma_add_to_steps_nodes<'n>(
    steps: Seq<StepView<'n>>,
    view: NodeView<'n>,
    deferred: bool,
    region: ControlRegion,
    parent: ParentView,
)
    ensures
        steps_nodes(add_to_steps(steps, view, deferred, region, parent)) == steps_nodes(steps).push(*view.node),
{
    if steps.len() > 0 && !deferred && steps.last() is Direct {
        let ds = steps.last()->Direct_0;
        let t = steps.drop_last().push(StepView::Direct(ds.push(view)));
        assert(t.drop_last() =~= steps.drop_last());
        assert(viewed_nodes(ds.push(view)) =~= viewed_nodes(ds).push(*view.node));
    } else if steps.len() > 0 && deferred && steps.last() is Deferred {
        let t = add_to_steps(steps, view, deferred, region, parent);
        assert(t.drop_last() =~= steps.drop_last());
    } else if deferred {
        assert(steps.push(StepView::Deferred(fresh_batch(region, parent, *view.node))).drop_last() =~= steps);
    } else {
        assert(steps.push(StepView::<'n>::Direct(seq![view])).drop_last() =~= steps);
        assert(viewed_nodes(seq![view]) =~= seq![*view.node]);
    }
}

proof fn lemma_grouped_steps_nodes<'n>(
    nodes: Seq<NodeView<'n>>,
    k: int,
    region: ControlRegion,
    body: Seq<Node>,
    parent: ParentView,
)
    requires
        0 <= k <= nodes.len(),
    ensures
        steps_nodes(grouped_steps(nodes, k, region, body, parent).0) == viewed_nodes(nodes.take(k)),
    decreases k,
{
    if k == 0 {
        assert(viewed_nodes(nodes.take(0)) =~= Seq::<Node>::empty());
    } else {
        lemma_grouped_steps_nodes(nodes, k - 1, region, body, parent);
        let (steps, after_output) = grouped_steps(nodes, k - 1, region, body, parent);
        let view = nodes[k - 1];
        let deferred = defers(view, after_output, nodes, body, parent.0);
        lemma_add_to_steps_nodes(steps, view, deferred, region, parent);
        assert(viewed_nodes(nodes.take(k)) =~= viewed_nodes(nodes.take(k - 1)).push(*view.node));
    }
}

/// A branch's steps evaluate every node exactly once, in order, and then
/// the nodes of the escaped batches: deferral changes where a node renders,
/// never whether or in which order it is evaluated.
pub proof fn lemma_branch_steps_keep_every_node<'n>(
    region: ControlRegion,
    index: int,
    adopted: Seq<Adopted<'n>>,
    nodes: Seq<NodeView<'n>>,
    escaped: Seq<BatchView>,
    plan: PlanView,
    shells: Map<usize, Vec<ParentShellArm>>,
)
    ensures
        steps_nodes(branch_step_plan(region, index, adopted, nodes, escaped, plan, shells)) == viewed_nodes(
            nodes,
        ) + batches_nodes(escaped),
{
    let tail: Seq<StepView<'n>> = escaped_steps(escaped);
    lemma_escaped_steps_nodes(escaped, tail);
    lemma_singleton_steps_nodes(nodes);
    lemma_steps_nodes_concat(nodes.map_values(|v: NodeView<'n>| StepView::Direct(seq![v])), escaped_steps::<'n>(escaped));
    if region.kind == ControlKind::If && index != 0 {
        if let Some(candidate) = adoption_candidate(region.branches@, index, adopted) {
            let start = candidate.view.node.start();
            if plan.parent_shapes.contains_key(start) && index < region.branches@.len() {
                let shape = plan.parent_shapes[start];
                let parent = (shape, shells_at(shells, shape.start));
                let body = region.branches@[index].body@;
                lemma_grouped_steps_nodes(nodes, nodes.len() as int, region, body, parent);
                assert(nodes.take(nodes.len() as int) =~= nodes);
                lemma_steps_nodes_concat(
                    grouped_steps(nodes, nodes.len() as int, region, body, parent).0,
                    escaped_steps::<'n>(escaped),
                );
            }
        }
    }
}

/// The adoption candidate of [`adoption_candidate`].
fn find_adoption_candidate<'n>(region: &ControlRegion, index: usize, adopted: &[Adopted<'n>]) -> (found: Option<Adopted<'n>>)
    ensures
        found == adoption_candidate(region.branches@, index as int, adopted@),
{
    let mut found: Option<Adopted<'n>> = None;
    let mut i: usize = 0;
    while i < adopted.len()
        invariant
            i <= adopted@.len(),
            found == adoption_candidate(region.branches@, index as int, adopted@.take(i as int)),
        decreases adopted@.len() - i,
    {
        proof {
            assert(adopted@.take(i + 1).drop_last() =~= adopted@.take(i as int));
            assert(adopted@.take(i + 1).last() == adopted@[i as int]);
        }
        let candidate = adopted[i];
        let start = candidate.view.node.span_start();
        let (target, _) = branch_window(region, start);
        if target < index {
            let later = match found {
                Some(r) => r.view.node.span_start() <= start,
                None => true,
            };
            if later {
                found = Some(candidate);
            }
        }
        i += 1;
    }
    proof {
        assert(adopted@.take(adopted@.len() as int) =~= adopted@);
    }
    found
}

/// Each node a direct step of its own, then each escaped batch.
fn plain_branch_steps<'n>(nodes: Vec<NodeView<'n>>, escaped: Vec<DeferredNodes<'n>>) -> (steps: Vec<BranchStep<'n>>)
    ensures
        steps_view(steps@) == plain_steps(nodes@, batches_view(escaped@)),
{
    let mut steps: Vec<BranchStep<'n>> = Vec::new();
    let mut i: usize = 0;
    while i < nodes.len()
        invariant
            i <= nodes@.len(),
            steps_view(steps@) == nodes@.take(i as int).map_values(|v: NodeView<'n>| StepView::Direct(seq![v])),
        decreases nodes@.len() - i,
    {
        let ghost before = steps@;
        let mut single: Vec<NodeView<'n>> = Vec::new();
        single.push(nodes[i]);
        proof {
            assert(single@ =~= seq![nodes@[i as int]]);
        }
        steps.push(BranchStep::Direct(single));
        proof {
            assert(steps_view(steps@) =~= steps_view(before).push(StepView::Direct(seq![nodes@[i as int]])));
            assert(nodes@.take(i + 1) =~= nodes@.take(i as int).push(nodes@[i as int]));
            assert(nodes@.take(i + 1).map_values(|v: NodeView<'n>| StepView::Direct(seq![v])) =~= nodes@.take(
                i as int,
            ).map_values(|v: NodeView<'n>| StepView::Direct(seq![v])).push(StepView::Direct(seq![nodes@[i as int]])));
        }
        i += 1;
    }
    assert(nodes@.take(nodes@.len() as int) =~= nodes@);
    append_escaped(&mut steps, escaped);
    steps
}

/// Append each escaped batch as a deferred step.
fn append_escaped<'n>(steps: &mut Vec<BranchStep<'n>>, escaped: Vec<DeferredNodes<'n>>)
    ensures
        steps_view(final(steps)@) == steps_view(old(steps)@) + escaped_steps(batches_view(escaped@)),
{
    let ghost start = steps_view(steps@);
    let ghost all = batches_view(escaped@);
    let ghost n = escaped@.len();
    let mut source = escaped;
    while source.len() > 0
        invariant
            n == all.len(),
            source@.len() <= n,
            batches_view(source@) == all.subrange(n - source@.len(), n as int),
            steps_view(steps@) == start + escaped_steps::<'n>(all.subrange(0, n - source@.len())),
        decreases source@.len(),
    {
        let ghost k = n - source@.len();
        let ghost src = source@;
        let batch = source.remove(0);
        proof {
            assert(batches_view(src)[0] == batch_view(batch));
            assert(batches_view(source@) =~= batches_view(src).subrange(1, src.len() as int));
        }
        let ghost bv = batch_view(batch);
        let ghost before = steps@;
        steps.push(BranchStep::Deferred(batch));
        proof {
            assert(all[k] == bv);
            assert(steps_view(steps@) =~= steps_view(before).push(StepView::<'n>::Deferred(bv)));
            assert(all.subrange(0, k + 1) =~= all.subrange(0, k).push(bv));
            assert(escaped_steps::<'n>(all.subrange(0, k + 1)) =~= escaped_steps::<'n>(all.subrange(0, k)).push(
                StepView::<'n>::Deferred(bv),
            ));
            assert(steps_view(steps@) =~= start + escaped_steps::<'n>(all.subrange(0, k + 1)));
        }
    }
    assert(all.subrange(0, n as int) =~= all);
}

/// Whether `node` on its own is a batch inside `parent`.
fn lone_node_inside(parent: &DeferredParent, node: &Node) -> (inside: bool)
    ensures
        inside == lone_inside(*node, parent.shape),
{
    match node {
        Node::Comment(_) | Node::Opaque(_) => false,
        _ => deferred_node_belongs_inside(node, parent),
    }
}

/// Whether some node of a branch body starts where `node` starts.
fn starts_in(body: &Vec<Node>, node: &Node) -> (found: bool)
    ensures
        found == starts_in_body(*node, body@),
{
    let start = node.span_start();
    let mut k: usize = 0;
    while k < body.len()
        invariant
            k <= body@.len(),
            start == node.start(),
            forall|j: int| 0 <= j < k ==> (#[trigger] body@[j]).start() != start,
        decreases body@.len() - k,
    {
        if body[k].span_start() == start {
            return true;
        }
        k += 1;
    }
    false
}

/// Whether every branch of `region` has an empty body.
fn is_bodiless(region: &ControlRegion) -> (empty: bool)
    ensures
        empty == bodiless(*region),
{
    let mut b: usize = 0;
    while b < region.branches.len()
        invariant
            b <= region.branches@.len(),
            forall|j: int| 0 <= j < b ==> (#[trigger] region.branches@[j]).body@.len() == 0,
        decreases region.branches@.len() - b,
    {
        if region.branches[b].body.len() > 0 {
            return false;
        }
        b += 1;
    }
    true
}

/// Whether `node` shows it can render inside `parent` (see
/// [`has_parent_evidence`]).
fn parent_evidence<'n>(node: &Node, nodes: &Vec<NodeView<'n>>, parent: &DeferredParent) -> (shown: bool)
    ensures
        shown == has_parent_evidence(*node, nodes@, parent.shape),
{
    match node {
        Node::Control(control) => {
            if !is_bodiless(control) {
                return true;
            }
            let mut j: usize = 0;
            while j < nodes.len()
                invariant
                    j <= nodes@.len(),
                    *node == Node::Control(*control),
                    bodiless(*control),
                    forall|i: int|
                        0 <= i < j ==> !(control.span.start < (#[trigger] nodes@[i]).node.start() < control.span.end
                            && lone_inside(*nodes@[i].node, parent.shape)),
                decreases nodes@.len() - j,
            {
                let s = nodes[j].node.span_start();
                if control.span.start < s && s < control.span.end && lone_node_inside(parent, nodes[j].node) {
                    proof {
                        assert(control.span.start < nodes@[j as int].node.start() < control.span.end
                            && lone_inside(*nodes@[j as int].node, parent.shape));
                    }
                    return true;
                }
                j += 1;
            }
            false
        },
        _ => true,
    }
}

/// The nodes of a later `if` branch grouped into direct steps and batches
/// deferred under `parent` (see [`grouped_steps`]).
fn group_branch_nodes<'n>(
    region: &ControlRegion,
    body: &Vec<Node>,
    nodes: &Vec<NodeView<'n>>,
    parent: DeferredParent<'n>,
) -> (steps: Vec<BranchStep<'n>>)
    ensures
        steps_view(steps@) == grouped_steps(nodes@, nodes@.len() as int, *region, body@, parent_view(parent)).0,
{
    let ghost pv = parent_view(parent);
    let mut steps: Vec<BranchStep<'n>> = Vec::new();
    let mut after_output = false;
    let mut i: usize = 0;
    while i < nodes.len()
        invariant
            i <= nodes@.len(),
            pv == parent_view(parent),
            (steps_view(steps@), after_output) == grouped_steps(nodes@, i as int, *region, body@, pv),
        decreases nodes@.len() - i,
    {
        let view = nodes[i];
        let deferred = match view.node {
            Node::Opaque(opaque) => {
                if opaque.kind == OpaqueKind::ActionLineText {
                    after_output
                } else {
                    starts_in(body, view.node) && parent_evidence(view.node, nodes, &parent) && lone_node_inside(
                        &parent,
                        view.node,
                    )
                }
            },
            _ => starts_in(body, view.node) && parent_evidence(view.node, nodes, &parent) && lone_node_inside(
                &parent,
                view.node,
            ),
        };
        let ghost before = steps_view(steps@);
        proof {
            assert(deferred == defers(view, after_output, nodes@, body@, parent.shape));
        }
        let joins = match steps.last() {
            Some(BranchStep::Direct(_)) => !deferred,
            Some(BranchStep::Deferred(_)) => deferred,
            None => false,
        };
        if joins {
            let last = steps.pop().unwrap();
            proof {
                assert(steps_view(steps@) =~= before.drop_last());
                assert(step_view(last) == before.last());
            }
            match last {
                BranchStep::Direct(mut direct) => {
                    direct.push(view);
                    steps.push(BranchStep::Direct(direct));
                },
                BranchStep::Deferred(mut batch) => {
                    let ghost b = batch_view(batch);
                    batch.nodes.push(view.node);
                    proof {
                        assert(nodes_view(batch.nodes@) =~= b.nodes.push(*view.node));
                    }
                    steps.push(BranchStep::Deferred(batch));
                },
            }
        } else if deferred {
            let (_, window) = branch_window(region, view.node.span_start());
            let mut chain: Vec<DeferredParent<'n>> = Vec::new();
            chain.push(parent);
            let mut batch_nodes: Vec<&'n Node> = Vec::new();
            batch_nodes.push(view.node);
            let batch = DeferredNodes {
                chain,
                resolved_chains: Vec::new(),
                nodes: batch_nodes,
                window,
                defer_end: window.end,
                omitted_control: Some(region.span.start),
            };
            proof {
                assert(chain_view(batch.chain@) =~= seq![pv]);
                assert(resolved_view(batch.resolved_chains@) =~= Seq::empty());
                assert(nodes_view(batch.nodes@) =~= seq![*view.node]);
                assert(batch_view(batch) == fresh_batch(*region, pv, *view.node));
            }
            steps.push(BranchStep::Deferred(batch));
        } else {
            let mut single: Vec<NodeView<'n>> = Vec::new();
            single.push(view);
            steps.push(BranchStep::Direct(single));
        }
        proof {
            assert(steps_view(steps@) =~= add_to_steps(before, view, deferred, *region, pv));
        }
        after_output = deferred && match view.node {
            Node::Output(_) => true,
            _ => false,
        };
        i += 1;
    }
    steps
}

/// The steps of branch `index` of `region` in source execution order (see
/// [`branch_step_plan`]): a later branch of an `if` defers the nodes that
/// render inside the container an earlier branch adopted, beside the
/// escaped batches, and the whole is put in source order.
pub fn branch_steps<'n>(
    region: &'n ControlRegion,
    index: usize,
    adopted: &[Adopted<'n>],
    nodes: Vec<NodeView<'n>>,
    escaped: Vec<DeferredNodes<'n>>,
    plan: &AdoptionPlan,
    parent_shells: &'n HashMap<usize, Vec<ParentShellArm>>,
) -> (steps: Vec<BranchStep<'n>>)
    ensures
        steps_view(steps@) == join_direct(
            Seq::empty(),
            steps_in_order(
                branch_step_plan(
                    *region,
                    index as int,
                    adopted@,
                    nodes@,
                    batches_view(escaped@),
                    plan.view(),
                    parent_shells@,
                ),
            ),
        ),
{
    broadcast use vstd::std_specs::hash::group_hash_axioms;
    if region.kind != ControlKind::If || index == 0 {
        return source_ordered_branch_steps(plain_branch_steps(nodes, escaped));
    }
    let candidate = match find_adoption_candidate(region, index, adopted) {
        Some(candidate) => candidate,
        None => {
            return source_ordered_branch_steps(plain_branch_steps(nodes, escaped));
        },
    };
    let shape = match plan.parent_shape(candidate.view.node.span_start()) {
        Some(shape) => shape,
        None => {
            return source_ordered_branch_steps(plain_branch_steps(nodes, escaped));
        },
    };
    if index >= region.branches.len() {
        return source_ordered_branch_steps(plain_branch_steps(nodes, escaped));
    }
    let arms: &'n [ParentShellArm] = match parent_shells.get(&shape.start) {
        Some(arms) => arms.as_slice(),
        None => &[],
    };
    let parent = DeferredParent { shape, arms };
    proof {
        assert(parent_view(parent) == (shape, shells_at(parent_shells@, shape.start)));
    }
    let mut steps = group_branch_nodes(region, &region.branches[index].body, &nodes, parent);
    append_escaped(&mut steps, escaped);
    source_ordered_branch_steps(steps)
}

// ---------------------------------------------------------------------
// Residual batches past a branch window
// ---------------------------------------------------------------------

/// The deferred batches below the first `k` nodes, each searched with the
/// same chain.
pub open spec fn nodes_residual(
    nodes: Seq<Node>,
    k: int,
    window: SourceWindow,
    omitted: Option<usize>,
    plan: PlanView,
    shells: Map<usize, Vec<ParentShellArm>>,
    chain: Seq<ParentView>,
) -> Seq<BatchView>
    decreases k,
{
    if k <= 0 || k > nodes.len() {
        Seq::empty()
    } else {
        nodes_residual(nodes, k - 1, window, omitted, plan, shells, chain) + deferred_from(
            nodes[k - 1],
            window,
            omitted,
            plan,
            shells,
            chain,
        )
    }
}

/// What a batch leaves past its branch window: when the window ends before
/// the batch's deferral bound (or the bound is open), the descendants of its
/// nodes between the two, under the batch's chain; otherwise nothing.
pub open spec fn residual_batches(
    batch: BatchView,
    plan: PlanView,
    shells: Map<usize, Vec<ParentShellArm>>,
) -> Seq<BatchView> {
    match batch.window.end {
        Some(window_end) => if batch.defer_end matches Some(d) && d <= window_end {
            Seq::empty()
        } else {
            nodes_residual(
                batch.nodes,
                batch.nodes.len() as int,
                SourceWindow { start: window_end, end: batch.defer_end },
                batch.omitted_control,
                plan,
                shells,
                batch.chain,
            )
        },
        None => Seq::empty(),
    }
}

/// The residual batches of every deferred step, step after step.
pub open spec fn steps_residual<'n>(
    steps: Seq<StepView<'n>>,
    plan: PlanView,
    shells: Map<usize, Vec<ParentShellArm>>,
) -> Seq<BatchView>
    decreases steps.len(),
{
    if steps.len() == 0 {
        Seq::empty()
    } else {
        steps_residual(steps.drop_last(), plan, shells) + match steps.last() {
            StepView::Deferred(batch) => residual_batches(batch, plan, shells),
            StepView::Direct(_) => Seq::empty(),
        }
    }
}

/// Append the residual batches of `batch` to `out` (see
/// [`residual_batches`]).
fn push_deferred_residual<'n>(
    batch: &DeferredNodes<'n>,
    plan: &AdoptionPlan,
    parent_shells: &'n HashMap<usize, Vec<ParentShellArm>>,
    out: &mut Vec<DeferredNodes<'n>>,
)
    ensures
        batches_view(final(out)@) == batches_view(old(out)@) + residual_batches(
            batch_view(*batch),
            plan.view(),
            parent_shells@,
        ),
{
    let ghost start = batches_view(out@);
    let window_end = match batch.window.end {
        Some(window_end) => window_end,
        None => {
            proof {
                assert(batches_view(out@) =~= start + Seq::<BatchView>::empty());
            }
            return;
        },
    };
    let beyond = match batch.defer_end {
        Some(defer_end) => window_end < defer_end,
        None => true,
    };
    if !beyond {
        proof {
            assert(batches_view(out@) =~= start + Seq::<BatchView>::empty());
        }
        return;
    }
    let residual_window = SourceWindow { start: window_end, end: batch.defer_end };
    let ghost bv = batch_view(*batch);
    let mut i: usize = 0;
    while i < batch.nodes.len()
        invariant
            i <= batch.nodes@.len(),
            bv == batch_view(*batch),
            residual_window == (SourceWindow { start: window_end, end: batch.defer_end }),
            residual_window.end matches Some(e) ==> e >= residual_window.start,
            batches_view(out@) == start + nodes_residual(
                bv.nodes,
                i as int,
                residual_window,
                batch.omitted_control,
                plan.view(),
                parent_shells@,
                bv.chain,
            ),
        decreases batch.nodes@.len() - i,
    {
        let mut chain = copy_chain(&batch.chain);
        proof {
            assert(bv.nodes[i as int] == *batch.nodes@[i as int]);
        }
        collect_deferred(
            batch.nodes[i],
            residual_window,
            batch.omitted_control,
            plan,
            parent_shells,
            &mut chain,
            out,
        );
        i += 1;
    }
}

/// The residual batches of one deferred batch (see [`residual_batches`]).
pub fn deferred_residual<'n>(
    batch: &DeferredNodes<'n>,
    plan: &AdoptionPlan,
    parent_shells: &'n HashMap<usize, Vec<ParentShellArm>>,
) -> (residual: Vec<DeferredNodes<'n>>)
    ensures
        batches_view(residual@) == residual_batches(batch_view(*batch), plan.view(), parent_shells@),
{
    let mut residual: Vec<DeferredNodes<'n>> = Vec::new();
    push_deferred_residual(batch, plan, parent_shells, &mut residual);
    assert(batches_view(residual@) =~= Seq::<BatchView>::empty() + residual_batches(
        batch_view(*batch),
        plan.view(),
        parent_shells@,
    ));
    residual
}

/// The residual batches of every deferred step (see [`steps_residual`]).
pub fn branch_step_residuals<'n>(
    steps: &[BranchStep<'n>],
    plan: &AdoptionPlan,
    parent_shells: &'n HashMap<usize, Vec<ParentShellArm>>,
) -> (residual: Vec<DeferredNodes<'n>>)
    ensures
        batches_view(residual@) == steps_residual(steps_view(steps@), plan.view(), parent_shells@),
{
    let mut residual: Vec<DeferredNodes<'n>> = Vec::new();
    let mut i: usize = 0;
    while i < steps.len()
        invariant
            i <= steps@.len(),
            batches_view(residual@) == steps_residual(steps_view(steps@.take(i as int)), plan.view(), parent_shells@),
        decreases steps@.len() - i,
    {
        proof {
            assert(steps_view(steps@.take(i + 1)).drop_last() =~= steps_view(steps@.take(i as int)));
            assert(steps_view(steps@.take(i + 1)).last() == step_view(steps@[i as int]));
        }
        match &steps[i] {
            BranchStep::Deferred(batch) => {
                push_deferred_residual(batch, plan, parent_shells, &mut residual);
            },
            BranchStep::Direct(_) => {
                assert(batches_view(residual@) =~= batches_view(residual@) + Seq::<BatchView>::empty());
            },
        }
        i += 1;
    }
    assert(steps@.take(steps@.len() as int) =~= steps@);
    residual
}

} // verus!
