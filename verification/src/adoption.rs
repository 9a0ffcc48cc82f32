//! Source-layout facts for re-adopting content that escapes a control
//! region: which containers can own deferred content, in which
//! indentation slot they sit, where each one's real content ends, and
//! which control regions a container's descendants escaped into.
//!
//! The facts are gathered in one walk over the templated-YAML tree and
//! then frozen into an [`AdoptionPlan`].

use std::collections::HashMap;

use vstd::prelude::*;

use crate::child_index::{ChildIndex, LayoutDisposition, PlannedNode};
use crate::layout::{
    control_at_path, established_content_mark, list_mark, mapping_own_end, max_pos, min_opt,
    min_option, node_at, own_end, parts_end, scalar_parts_end, sequence_own_end, NodePathStep,
};
use crate::syntax::{ControlBranch, ControlRegion, Node};
use crate::window::SourceWindow;

verus! {

/// Which kind of container owns an indentation slot.
#[derive(Clone, Copy, Debug, PartialEq, Eq, Structural)]
pub enum ParentKind {
    Entry,
    Item,
}

/// One rendered indentation slot inside a structural owner.
#[derive(Clone, Copy, Debug, PartialEq, Eq, Structural)]
pub struct ParentSlot {
    pub owner_start: Option<usize>,
    pub kind: ParentKind,
    pub indent: usize,
}

/// Immutable source facts for one container that can own deferred content.
#[derive(Clone, Copy, Debug, PartialEq, Eq, Structural)]
pub struct ParentShape {
    pub start: usize,
    pub slot: ParentSlot,
    pub indent: usize,
    pub accepts_same_indent: bool,
    pub established_content_mark: Option<usize>,
}

impl ParentShape {
    /// The kind of container this shape describes.
    pub fn kind(&self) -> (kind: ParentKind)
        ensures
            kind == self.slot.kind,
    {
        self.slot.kind
    }
}

/// A child's start and layout disposition, as the open-chain walk reads it.
#[derive(Clone, Copy, Debug, PartialEq, Eq, Structural)]
pub struct PlannedChild {
    pub start: usize,
    pub disposition: LayoutDisposition,
}

// ---------------------------------------------------------------------
// Source order of planned children
// ---------------------------------------------------------------------

/// `s` with `c` inserted after every element that starts at or before it.
pub open spec fn insert_child(s: Seq<PlannedChild>, c: PlannedChild) -> Seq<PlannedChild>
    decreases s.len(),
{
    if s.len() == 0 || s.last().start <= c.start {
        s.push(c)
    } else {
        insert_child(s.drop_last(), c).push(s.last())
    }
}

/// The layout view of one planned node.
pub open spec fn layout_child(node: PlannedNode) -> PlannedChild {
    PlannedChild { start: node.start, disposition: node.disposition }
}

/// The children's layout views sorted by start, ties in child order.
pub open spec fn children_in_order(children: Seq<PlannedNode>) -> Seq<PlannedChild>
    decreases children.len(),
{
    if children.len() == 0 {
        Seq::empty()
    } else {
        insert_child(children_in_order(children.drop_last()), layout_child(children.last()))
    }
}

/// Inserting at the position a backward scan stops at is [`insert_child`].
proof fn lemma_insert_child_at(s: Seq<PlannedChild>, c: PlannedChild, p: int)
    requires
        0 <= p <= s.len(),
        forall|i: int| p <= i < s.len() ==> (#[trigger] s[i]).start > c.start,
        p > 0 ==> s[p - 1].start <= c.start,
    ensures
        insert_child(s, c) == s.take(p).push(c) + s.skip(p),
    decreases s.len(),
{
    if s.len() == p {
        assert(s.take(p) =~= s);
        assert(s.skip(p) =~= Seq::<PlannedChild>::empty());
        assert(s.take(p).push(c) + s.skip(p) =~= s.push(c));
    } else {
        let d = s.drop_last();
        lemma_insert_child_at(d, c, p);
        assert(d.take(p) =~= s.take(p));
        assert((d.take(p).push(c) + d.skip(p)).push(s.last()) =~= s.take(p).push(c) + s.skip(p));
    }
}

/// Children sorted by start, ties in child order: the order in which the
/// open-container walk reads a container's children.
pub fn planned_children_in_source_order(children: &[PlannedNode]) -> (planned: Vec<PlannedChild>)
    ensures
        planned@ == children_in_order(children@),
{
    let mut planned: Vec<PlannedChild> = Vec::new();
    let mut k: usize = 0;
    while k < children.len()
        invariant
            k <= children@.len(),
            planned@ == children_in_order(children@.take(k as int)),
        decreases children@.len() - k,
    {
        let c = PlannedChild { start: children[k].start, disposition: children[k].disposition };
        let mut pos = planned.len();
        while pos > 0 && planned[pos - 1].start > c.start
            invariant
                pos <= planned@.len(),
                forall|i: int| pos <= i < planned@.len() ==> (#[trigger] planned@[i]).start > c.start,
            decreases pos,
        {
            pos -= 1;
        }
        proof {
            lemma_insert_child_at(planned@, c, pos as int);
            assert(children@.take(k + 1).drop_last() =~= children@.take(k as int));
            assert(children@.take(k + 1).last() == children@[k as int]);
        }
        planned.insert(pos, c);
        proof {
            assert(planned@ =~= insert_child(children_in_order(children@.take(k as int)), c));
        }
        k += 1;
    }
    proof {
        assert(children@.take(children@.len() as int) =~= children@);
    }
    planned
}

// ---------------------------------------------------------------------
// Crossing priors: a sweep over siblings in evaluation order
// ---------------------------------------------------------------------

/// Where a node is evaluated: at its control region, else at its start.
pub open spec fn evaluation_start(node: PlannedNode) -> usize {
    match node.control_start {
        Some(c) => c,
        None => node.start,
    }
}

/// Whether `a` is evaluated no later than `b`: by evaluation start, then
/// by start.
pub open spec fn evaluated_no_later(a: PlannedNode, b: PlannedNode) -> bool {
    evaluation_start(a) < evaluation_start(b) || (evaluation_start(a) == evaluation_start(b)
        && a.start <= b.start)
}

/// `s` with `n` inserted after every node evaluated no later than it.
pub open spec fn insert_evaluated(s: Seq<PlannedNode>, n: PlannedNode) -> Seq<PlannedNode>
    decreases s.len(),
{
    if s.len() == 0 || evaluated_no_later(s.last(), n) {
        s.push(n)
    } else {
        insert_evaluated(s.drop_last(), n).push(s.last())
    }
}

/// Siblings in evaluation order, ties in sibling order.
pub open spec fn evaluation_order(nodes: Seq<PlannedNode>) -> Seq<PlannedNode>
    decreases nodes.len(),
{
    if nodes.len() == 0 {
        Seq::empty()
    } else {
        insert_evaluated(evaluation_order(nodes.drop_last()), nodes.last())
    }
}

/// Inserting at the position a backward scan stops at is
/// [`insert_evaluated`].
proof fn lemma_insert_evaluated_at(s: Seq<PlannedNode>, n: PlannedNode, p: int)
    requires
        0 <= p <= s.len(),
        forall|i: int| p <= i < s.len() ==> !evaluated_no_later(#[trigger] s[i], n),
        p > 0 ==> evaluated_no_later(s[p - 1], n),
    ensures
        insert_evaluated(s, n) == s.take(p).push(n) + s.skip(p),
    decreases s.len(),
{
    if s.len() == p {
        assert(s.take(p) =~= s);
        assert(s.take(p).push(n) + s.skip(p) =~= s.push(n));
    } else {
        let d = s.drop_last();
        lemma_insert_evaluated_at(d, n, p);
        assert(d.take(p) =~= s.take(p));
        assert((d.take(p).push(n) + d.skip(p)).push(s.last()) =~= s.take(p).push(n) + s.skip(p));
    }
}

/// The sweep's state after some siblings: the starts of deferrable
/// siblings still open, the `(end, start)` pairs awaiting expiry, and the
/// priors gathered for each control region.
pub struct SweepState {
    pub active: Set<usize>,
    pub pending: Set<(usize, usize)>,
    pub priors: Map<usize, Set<usize>>,
}

/// Whether a pending pair with this start has expired at `at`.
pub open spec fn expires(pending: Set<(usize, usize)>, at: usize, start: usize) -> bool {
    exists|p: (usize, usize)| #[trigger] pending.contains(p) && p.0 <= at && p.1 == start
}

/// The priors gathered so far for control region `c`.
pub open spec fn priors_at(priors: Map<usize, Set<usize>>, c: usize) -> Set<usize> {
    if priors.contains_key(c) {
        priors[c]
    } else {
        Set::empty()
    }
}

/// One step of the sweep at node `n`: expire what ended by its evaluation
/// start, record what is still open as priors of its control region, then
/// open `n` itself if it can own deferred content.
pub open spec fn sweep_step(st: SweepState, n: PlannedNode) -> SweepState {
    let at = evaluation_start(n);
    let active = st.active.filter(|s: usize| !expires(st.pending, at, s));
    let pending = st.pending.filter(|p: (usize, usize)| p.0 > at);
    let priors = match n.control_start {
        Some(c) => st.priors.insert(c, priors_at(st.priors, c).union(active)),
        None => st.priors,
    };
    if n.can_defer {
        SweepState { active: active.insert(n.start), pending: pending.insert((n.end, n.start)), priors }
    } else {
        SweepState { active, pending, priors }
    }
}

/// The sweep over `ordered`, starting from no open sibling.
pub open spec fn sweep(ordered: Seq<PlannedNode>, priors: Map<usize, Set<usize>>) -> SweepState
    decreases ordered.len(),
{
    if ordered.len() == 0 {
        SweepState { active: Set::empty(), pending: Set::empty(), priors }
    } else {
        sweep_step(sweep(ordered.drop_last(), priors), ordered.last())
    }
}

/// The priors after sweeping siblings `nodes` in evaluation order.
pub open spec fn crossing_sweep(nodes: Seq<PlannedNode>, priors: Map<usize, Set<usize>>) -> Map<usize, Set<usize>> {
    sweep(evaluation_order(nodes), priors).priors
}

// ---------------------------------------------------------------------
// The plan
// ---------------------------------------------------------------------

/// The tree path from an escaped container to the control that owns it.
#[derive(Debug)]
pub struct EscapedControl {
    pub control_start: usize,
    pub path: Vec<NodePathStep>,
}

/// The plain view of escaped controls: control start and path.
pub open spec fn escaped_view(controls: Seq<EscapedControl>) -> Seq<(usize, Seq<NodePathStep>)> {
    controls.map_values(|e: EscapedControl| (e.control_start, e.path@))
}

/// Source-layout facts for deferred-content adoption, keyed by node start.
pub struct AdoptionPlan {
    controls: HashMap<usize, Vec<EscapedControl>>,
    crossing_priors: HashMap<usize, Vec<usize>>,
    content_ends: HashMap<usize, usize>,
    child_indexes: HashMap<usize, ChildIndex>,
    parent_shapes: HashMap<usize, ParentShape>,
    parent_slots: Vec<(ParentSlot, Vec<usize>)>,
    layout_children: HashMap<usize, Vec<PlannedChild>>,
}

/// What an [`AdoptionPlan`] holds, as maps of plain values.
pub struct PlanView {
    /// Escaped controls per container start, in the order recorded.
    pub controls: Map<usize, Seq<(usize, Seq<NodePathStep>)>>,
    /// Starts of earlier siblings still open at each control region.
    pub crossing_priors: Map<usize, Set<usize>>,
    /// Deepest real content end per node start.
    pub content_ends: Map<usize, usize>,
    /// The children each container's child index was built over.
    pub child_indexes: Map<usize, Seq<PlannedNode>>,
    pub parent_shapes: Map<usize, ParentShape>,
    /// Starts of scope-opening containers per indentation slot.
    pub parent_slots: Map<ParentSlot, Set<usize>>,
    /// Each container's children in source order.
    pub layout_children: Map<usize, Seq<PlannedChild>>,
}

/// `s` is strictly increasing.
pub open spec fn increasing(s: Seq<usize>) -> bool {
    forall|i: int, j: int| 0 <= i < j < s.len() ==> s[i] < s[j]
}

/// Controls strictly increasing by control start.
pub open spec fn controls_increasing(s: Seq<(usize, Seq<NodePathStep>)>) -> bool {
    forall|i: int, j: int| 0 <= i < j < s.len() ==> (#[trigger] s[i]).0 < (#[trigger] s[j]).0
}

/// The slot association list as a map.
pub open spec fn slots_view(slots: Seq<(ParentSlot, Vec<usize>)>) -> Map<ParentSlot, Set<usize>>
    decreases slots.len(),
{
    if slots.len() == 0 {
        Map::empty()
    } else {
        slots_view(slots.drop_last()).insert(slots.last().0, slots.last().1@.to_set())
    }
}

/// No slot occurs twice in the association list.
pub open spec fn slots_distinct(slots: Seq<(ParentSlot, Vec<usize>)>) -> bool {
    forall|i: int, j: int| 0 <= i < j < slots.len() ==> (#[trigger] slots[i]).0 != (#[trigger] slots[j]).0
}

/// An empty plan view.
pub open spec fn empty_view() -> PlanView {
    PlanView {
        controls: Map::empty(),
        crossing_priors: Map::empty(),
        content_ends: Map::empty(),
        child_indexes: Map::empty(),
        parent_shapes: Map::empty(),
        parent_slots: Map::empty(),
        layout_children: Map::empty(),
    }
}

/// `plan` with its crossing priors replaced.
pub open spec fn with_priors(plan: PlanView, priors: Map<usize, Set<usize>>) -> PlanView {
    PlanView { crossing_priors: priors, ..plan }
}

impl AdoptionPlan {
    /// The plan's facts as maps of plain values.
    pub closed spec fn view(&self) -> PlanView {
        PlanView {
            controls: self.controls@.map_values(|v: Vec<EscapedControl>| escaped_view(v@)),
            crossing_priors: self.crossing_priors@.map_values(|v: Vec<usize>| v@.to_set()),
            content_ends: self.content_ends@,
            child_indexes: self.child_indexes@.map_values(|ci: ChildIndex| ci.children()),
            parent_shapes: self.parent_shapes@,
            parent_slots: slots_view(self.parent_slots@),
            layout_children: self.layout_children@.map_values(|v: Vec<PlannedChild>| v@),
        }
    }

    /// What holds of every plan while it is filled: no slot twice, and
    /// every list ordered without repeats.
    pub closed spec fn inv(&self) -> bool {
        &&& slots_distinct(self.parent_slots@)
        &&& forall|i: int| 0 <= i < self.parent_slots@.len() ==> increasing(#[trigger] self.parent_slots@[i].1@)
        &&& forall|k: usize| #[trigger] self.crossing_priors@.contains_key(k) ==> increasing(self.crossing_priors@[k]@)
        &&& forall|k: usize| #[trigger] self.controls@.contains_key(k) ==> controls_increasing(escaped_view(self.controls@[k]@))
    }

    /// A plan with no facts yet.
    pub fn new() -> (plan: Self)
        ensures
            plan.view() == empty_view(),
            plan.inv(),
    {
        let plan = AdoptionPlan {
            controls: HashMap::new(),
            crossing_priors: HashMap::new(),
            content_ends: HashMap::new(),
            child_indexes: HashMap::new(),
            parent_shapes: HashMap::new(),
            parent_slots: Vec::new(),
            layout_children: HashMap::new(),
        };
        proof {
            assert(plan.view().controls =~= Map::empty());
            assert(plan.view().crossing_priors =~= Map::empty());
            assert(plan.view().child_indexes =~= Map::empty());
            assert(plan.view().layout_children =~= Map::empty());
        }
        plan
    }

    /// Add `more` to the priors of control region `control_start`.
    fn add_priors(&mut self, control_start: usize, more: &Vec<usize>)
        requires
            old(self).inv(),
        ensures
            final(self).view() == with_priors(
                old(self).view(),
                old(self).view().crossing_priors.insert(
                    control_start,
                    priors_at(old(self).view().crossing_priors, control_start).union(more@.to_set()),
                ),
            ),
            final(self).inv(),
    {
        broadcast use vstd::std_specs::hash::group_hash_axioms, vstd::seq_lib::group_seq_properties;
        let ghost before = self.crossing_priors@;
        let mut list = match self.crossing_priors.remove(&control_start) {
            Some(list) => list,
            None => Vec::new(),
        };
        let ghost prior = list@;
        proof {
            if !before.contains_key(control_start) {
                assert(prior.to_set() =~= Set::<usize>::empty());
            }
        }
        let mut i: usize = 0;
        while i < more.len()
            invariant
                i <= more@.len(),
                increasing(list@),
                list@.to_set() == prior.to_set().union(more@.take(i as int).to_set()),
            decreases more@.len() - i,
        {
            insert_unique(&mut list, more[i]);
            proof {
                assert(more@.take(i + 1) =~= more@.take(i as int).push(more@[i as int]));
                more@.take(i as int).lemma_push_to_set_commute(more@[i as int]);
                assert(list@.to_set() =~= prior.to_set().union(more@.take(i + 1).to_set()));
            }
            i += 1;
        }
        proof {
            assert(more@.take(more@.len() as int) =~= more@);
        }
        self.crossing_priors.insert(control_start, list);
        proof {
            assert(self.view().crossing_priors =~= old(self).view().crossing_priors.insert(
                control_start,
                priors_at(old(self).view().crossing_priors, control_start).union(more@.to_set()),
            ));
        }
    }
}

/// Put `x` into the strictly increasing `list`, unless it is there.
fn insert_unique(list: &mut Vec<usize>, x: usize)
    requires
        increasing(old(list)@),
    ensures
        increasing(final(list)@),
        final(list)@.to_set() == old(list)@.to_set().insert(x),
{
    broadcast use vstd::seq_lib::group_seq_properties;
    let mut pos = list.len();
    while pos > 0 && list[pos - 1] > x
        invariant
            pos <= list@.len(),
            forall|i: int| pos <= i < list@.len() ==> list@[i] > x,
        decreases pos,
    {
        pos -= 1;
    }
    if pos > 0 && list[pos - 1] == x {
        proof {
            assert(list@.to_set() =~= list@.to_set().insert(x));
        }
        return;
    }
    let ghost before = list@;
    list.insert(pos, x);
    proof {
        assert(list@ =~= before.take(pos as int).push(x) + before.skip(pos as int));
        assert forall|y: usize| #[trigger] list@.to_set().contains(y) <==> before.to_set().insert(x).contains(y) by {
            if list@.contains(y) {
                let k = choose|k: int| 0 <= k < list@.len() && list@[k] == y;
                if k < pos {
                    assert(before[k] == y);
                } else if k > pos {
                    assert(before[k - 1] == y);
                }
            }
            if before.contains(y) {
                let k = choose|k: int| 0 <= k < before.len() && before[k] == y;
                if k < pos {
                    assert(list@[k] == y);
                } else {
                    assert(list@[k + 1] == y);
                }
            }
            if y == x {
                assert(list@[pos as int] == x);
            }
        }
        assert(list@.to_set() =~= before.to_set().insert(x));
    }
}

impl AdoptionPlan {
    /// Record an escaped control under `container`, keeping the controls
    /// ordered by start and the first control recorded at each start.
    fn push_control(&mut self, container: usize, control: EscapedControl)
        requires
            old(self).inv(),
        ensures
            final(self).view() == plan_control(old(self).view(), container, (control.control_start, control.path@)),
            final(self).inv(),
    {
        broadcast use vstd::std_specs::hash::group_hash_axioms;
        let ghost c = (control.control_start, control.path@);
        let mut list = match self.controls.remove(&container) {
            Some(list) => list,
            None => Vec::new(),
        };
        let ghost before = escaped_view(list@);
        proof {
            assert(before =~= controls_at(old(self).view(), container));
        }
        let mut pos = list.len();
        while pos > 0 && list[pos - 1].control_start > control.control_start
            invariant
                pos <= list@.len(),
                forall|i: int| pos <= i < list@.len() ==> (#[trigger] list@[i]).control_start > control.control_start,
            decreases pos,
        {
            pos -= 1;
        }
        proof {
            lemma_insert_control_at(before, c, pos as int);
        }
        if !(pos > 0 && list[pos - 1].control_start == control.control_start) {
            let ghost raw = list@;
            list.insert(pos, control);
            proof {
                assert(escaped_view(list@) =~= before.take(pos as int).push(c) + before.skip(pos as int));
                assert forall|i: int, j: int| 0 <= i < j < escaped_view(list@).len() implies (#[trigger] escaped_view(list@)[i]).0
                    < (#[trigger] escaped_view(list@)[j]).0 by {
                    if i < pos && j < pos {
                    } else if i < pos && j == pos {
                        assert(before[pos - 1].0 <= c.0);
                        if i < pos - 1 {
                            assert(before[i].0 < before[pos - 1].0);
                        }
                    } else if i < pos {
                        assert(escaped_view(list@)[j] == before[j - 1]);
                    } else if i == pos {
                        assert(escaped_view(list@)[j] == before[j - 1]);
                    } else {
                        assert(escaped_view(list@)[i] == before[i - 1]);
                        assert(escaped_view(list@)[j] == before[j - 1]);
                    }
                }
            }
        }
        self.controls.insert(container, list);
        proof {
            assert(self.view().controls =~= plan_control(old(self).view(), container, c).controls);
        }
    }

    /// Add `start` to the members of `slot`.
    fn add_slot_member(&mut self, slot: ParentSlot, start: usize)
        requires
            old(self).inv(),
        ensures
            final(self).view() == (PlanView {
                parent_slots: old(self).view().parent_slots.insert(slot, slot_at(old(self).view().parent_slots, slot).insert(start)),
                ..old(self).view()
            }),
            final(self).inv(),
    {
        broadcast use vstd::seq_lib::group_seq_properties;
        let mut i: usize = 0;
        while i < self.parent_slots.len() && self.parent_slots[i].0 != slot
            invariant
                i <= self.parent_slots@.len(),
                forall|q: int| 0 <= q < i ==> (#[trigger] self.parent_slots@[q]).0 != slot,
            decreases self.parent_slots@.len() - i,
        {
            i += 1;
        }
        let ghost before = self.parent_slots@;
        if i < self.parent_slots.len() {
            let (found, mut members) = self.parent_slots.remove(i);
            proof {
                lemma_slots_view_at(before, i as int);
            }
            insert_unique(&mut members, start);
            self.parent_slots.insert(i, (found, members));
            proof {
                assert(self.parent_slots@ =~= before.update(i as int, (slot, members)));
                lemma_slots_view_update(before, i as int, members);
                assert forall|a: int, b: int| 0 <= a < b < self.parent_slots@.len() implies (#[trigger] self.parent_slots@[a]).0
                    != (#[trigger] self.parent_slots@[b]).0 by {
                    assert(before[a].0 != before[b].0);
                }
                assert forall|q: int| 0 <= q < self.parent_slots@.len() implies increasing(#[trigger] self.parent_slots@[q].1@) by {
                    if q != i {
                        assert(self.parent_slots@[q] == before[q]);
                    }
                }
            }
        } else {
            let mut members: Vec<usize> = Vec::new();
            members.push(start);
            self.parent_slots.push((slot, members));
            proof {
                lemma_slots_view_absent(before, slot);
                assert(self.parent_slots@.drop_last() =~= before);
                assert(members@.to_set() =~= Set::<usize>::empty().insert(start));
                assert forall|a: int, b: int| 0 <= a < b < self.parent_slots@.len() implies (#[trigger] self.parent_slots@[a]).0
                    != (#[trigger] self.parent_slots@[b]).0 by {
                    if b < before.len() {
                        assert(before[a].0 != before[b].0);
                    } else {
                        assert(before[a].0 != slot);
                    }
                }
                assert forall|q: int| 0 <= q < self.parent_slots@.len() implies increasing(#[trigger] self.parent_slots@[q].1@) by {
                    if q < before.len() {
                        assert(self.parent_slots@[q] == before[q]);
                    }
                }
            }
        }
    }

    /// Record container `start`: its child index, source-ordered children
    /// and shape, and its slot membership if it opens a scope.
    fn add_container(&mut self, start: usize, children: &Vec<PlannedNode>, shape: ParentShape, opens: bool)
        requires
            old(self).inv(),
            children@.len() < usize::MAX / 8,
        ensures
            final(self).view() == plan_container(old(self).view(), start, children@, shape, opens),
            final(self).inv(),
    {
        broadcast use vstd::std_specs::hash::group_hash_axioms;
        let index = ChildIndex::new(children.as_slice());
        self.child_indexes.insert(start, index);
        let layout = planned_children_in_source_order(children.as_slice());
        self.layout_children.insert(start, layout);
        self.parent_shapes.insert(start, shape);
        proof {
            assert(self.view().child_indexes =~= old(self).view().child_indexes.insert(start, children@));
            assert(self.view().layout_children =~= old(self).view().layout_children.insert(start, children_in_order(children@)));
        }
        if opens {
            self.add_slot_member(shape.slot, start);
        }
    }

    /// Record node `start`'s content end and build its planned node.
    fn finish_node(
        &mut self,
        start: usize,
        end: usize,
        content_end: usize,
        direct: Option<usize>,
        can_defer: bool,
        disposition: LayoutDisposition,
    ) -> (planned: PlannedNode)
        requires
            old(self).inv(),
        ensures
            (final(self).view(), planned) == plan_finish(old(self).view(), start, end, content_end, direct, can_defer, disposition),
            final(self).inv(),
    {
        broadcast use vstd::std_specs::hash::group_hash_axioms;
        let control_start = match direct {
            Some(c) => Some(c),
            None => match self.controls.get(&start) {
                Some(controls) => {
                    let mut least: Option<usize> = None;
                    let mut i: usize = 0;
                    while i < controls.len()
                        invariant
                            i <= controls@.len(),
                            least == min_control(escaped_view(controls@.take(i as int))),
                        decreases controls@.len() - i,
                    {
                        let here = controls[i].control_start;
                        proof {
                            assert(escaped_view(controls@.take(i + 1)).drop_last() =~= escaped_view(controls@.take(i as int)));
                        }
                        least = min_option(least, Some(here));
                        i += 1;
                    }
                    proof {
                        assert(controls@.take(controls@.len() as int) =~= controls@);
                    }
                    least
                },
                None => None,
            },
        };
        self.content_ends.insert(start, content_end);
        PlannedNode { start, end, content_end, control_start, can_defer, disposition }
    }
}

/// Inserting at the position a backward scan stops at is
/// [`insert_control`].
proof fn lemma_insert_control_at(s: Seq<(usize, Seq<NodePathStep>)>, c: (usize, Seq<NodePathStep>), p: int)
    requires
        0 <= p <= s.len(),
        forall|i: int| p <= i < s.len() ==> (#[trigger] s[i]).0 > c.0,
        p > 0 ==> s[p - 1].0 <= c.0,
    ensures
        insert_control(s, c) == if p > 0 && s[p - 1].0 == c.0 {
            s
        } else {
            s.take(p).push(c) + s.skip(p)
        },
    decreases s.len(),
{
    if s.len() == p {
        assert(s.take(p) =~= s);
        assert(s.take(p).push(c) + s.skip(p) =~= s.push(c));
    } else {
        let d = s.drop_last();
        lemma_insert_control_at(d, c, p);
        assert(d.take(p) =~= s.take(p));
        if p > 0 && s[p - 1].0 == c.0 {
            assert(d.push(s.last()) =~= s);
        } else {
            assert((d.take(p).push(c) + d.skip(p)).push(s.last()) =~= s.take(p).push(c) + s.skip(p));
        }
    }
}

/// With distinct slots, entry `i`'s members are the members of its slot.
proof fn lemma_slots_view_at(slots: Seq<(ParentSlot, Vec<usize>)>, i: int)
    requires
        slots_distinct(slots),
        0 <= i < slots.len(),
    ensures
        slots_view(slots).contains_key(slots[i].0),
        slots_view(slots)[slots[i].0] == slots[i].1@.to_set(),
    decreases slots.len(),
{
    if i < slots.len() - 1 {
        lemma_slots_view_at(slots.drop_last(), i);
        assert(slots[i].0 != slots.last().0);
    }
}

/// A slot on no entry has no members recorded.
proof fn lemma_slots_view_absent(slots: Seq<(ParentSlot, Vec<usize>)>, slot: ParentSlot)
    requires
        forall|q: int| 0 <= q < slots.len() ==> (#[trigger] slots[q]).0 != slot,
    ensures
        !slots_view(slots).contains_key(slot),
    decreases slots.len(),
{
    if slots.len() > 0 {
        lemma_slots_view_absent(slots.drop_last(), slot);
        assert(slots.last().0 != slot);
    }
}

/// Replacing entry `i`'s members replaces its slot's members.
proof fn lemma_slots_view_update(slots: Seq<(ParentSlot, Vec<usize>)>, i: int, members: Vec<usize>)
    requires
        slots_distinct(slots),
        0 <= i < slots.len(),
    ensures
        slots_view(slots.update(i, (slots[i].0, members))) == slots_view(slots).insert(slots[i].0, members@.to_set()),
    decreases slots.len(),
{
    let updated = slots.update(i, (slots[i].0, members));
    if i == slots.len() - 1 {
        assert(updated.drop_last() =~= slots.drop_last());
        assert(slots_view(updated) =~= slots_view(slots).insert(slots[i].0, members@.to_set()));
    } else {
        let d = slots.drop_last();
        lemma_slots_view_update(d, i, members);
        assert(updated.drop_last() =~= d.update(i, (slots[i].0, members)));
        assert(slots[i].0 != slots.last().0);
        assert(slots_view(updated) =~= slots_view(slots).insert(slots[i].0, members@.to_set()));
    }
}

/// Record, for each control region among sibling `nodes`, the starts of
/// earlier deferrable siblings still open when it is evaluated: the
/// siblings are swept in evaluation order; a deferrable sibling opens at
/// its start and closes once a later evaluation start reaches its end.
pub fn collect_crossing_priors(nodes: &[PlannedNode], plan: &mut AdoptionPlan)
    requires
        old(plan).inv(),
    ensures
        final(plan).view() == with_priors(old(plan).view(), crossing_sweep(nodes@, old(plan).view().crossing_priors)),
        final(plan).inv(),
{
    broadcast use vstd::seq_lib::group_seq_properties;
    let ordered = evaluation_ordered(nodes);
    let ghost start_priors = plan.view().crossing_priors;
    let ghost start_view = plan.view();
    let mut active: Vec<usize> = Vec::new();
    let mut pending: Vec<(usize, usize)> = Vec::new();
    let mut k: usize = 0;
    proof {
        assert(ordered@.take(0) =~= Seq::<PlannedNode>::empty());
        assert(active@.to_set() =~= Set::<usize>::empty());
        assert(pending@.to_set() =~= Set::<(usize, usize)>::empty());
        assert(plan.view() == with_priors(start_view, start_priors));
    }
    while k < ordered.len()
        invariant
            k <= ordered@.len(),
            ordered@ == evaluation_order(nodes@),
            active@.to_set() == sweep(ordered@.take(k as int), start_priors).active,
            pending@.to_set() == sweep(ordered@.take(k as int), start_priors).pending,
            plan.view() == with_priors(start_view, sweep(ordered@.take(k as int), start_priors).priors),
            plan.inv(),
            start_view == old(plan).view(),
            start_priors == start_view.crossing_priors,
        decreases ordered@.len() - k,
    {
        let node = ordered[k];
        let ghost st = sweep(ordered@.take(k as int), start_priors);
        let at = match node.control_start {
            Some(c) => c,
            None => node.start,
        };
        let (still_active, still_pending) = expire(&active, &pending, at);
        proof {
            assert(still_active@.to_set() =~= st.active.filter(|s: usize| !expires(st.pending, at, s)));
            assert(still_pending@.to_set() =~= st.pending.filter(|p: (usize, usize)| p.0 > at));
        }
        if let Some(c) = node.control_start {
            plan.add_priors(c, &still_active);
        }
        active = still_active;
        pending = still_pending;
        if node.can_defer {
            let ghost a0 = active@;
            let ghost p0 = pending@;
            active.push(node.start);
            pending.push((node.end, node.start));
            proof {
                a0.lemma_push_to_set_commute(node.start);
                p0.lemma_push_to_set_commute((node.end, node.start));
                assert(active@.to_set() =~= st.active.filter(|s: usize| !expires(st.pending, at, s)).insert(node.start));
                assert(pending@.to_set() =~= st.pending.filter(|p: (usize, usize)| p.0 > at).insert((node.end, node.start)));
            }
        }
        proof {
            assert(ordered@.take(k + 1).drop_last() =~= ordered@.take(k as int));
            assert(ordered@.take(k + 1).last() == ordered@[k as int]);
        }
        k += 1;
    }
    proof {
        assert(ordered@.take(ordered@.len() as int) =~= ordered@);
    }
}

/// The active starts that have not expired at `at`, and the pending pairs
/// that end after `at`.
fn expire(active: &Vec<usize>, pending: &Vec<(usize, usize)>, at: usize) -> (kept: (Vec<usize>, Vec<(usize, usize)>))
    ensures
        kept.0@.to_set() == active@.to_set().filter(|s: usize| !expires(pending@.to_set(), at, s)),
        kept.1@.to_set() == pending@.to_set().filter(|p: (usize, usize)| p.0 > at),
{
    broadcast use vstd::seq_lib::group_seq_properties;
    let mut still_pending: Vec<(usize, usize)> = Vec::new();
    let mut i: usize = 0;
    while i < pending.len()
        invariant
            i <= pending@.len(),
            forall|p: (usize, usize)| #[trigger] still_pending@.contains(p) <==> (pending@.take(i as int).contains(p) && p.0 > at),
        decreases pending@.len() - i,
    {
        let p = pending[i];
        let ghost kept_before = still_pending@;
        if p.0 > at {
            still_pending.push(p);
        }
        proof {
            assert(pending@.take(i + 1) =~= pending@.take(i as int).push(p));
            assert forall|q: (usize, usize)| #[trigger] still_pending@.contains(q) <==> (pending@.take(i + 1).contains(q) && q.0 > at) by {
                vstd::seq_lib::lemma_seq_contains_after_push(pending@.take(i as int), p, q);
                vstd::seq_lib::lemma_seq_contains_after_push(kept_before, p, q);
            }
        }
        i += 1;
    }
    let mut still_active: Vec<usize> = Vec::new();
    let mut j: usize = 0;
    while j < active.len()
        invariant
            j <= active@.len(),
            forall|s: usize| #[trigger] still_active@.contains(s) <==> (active@.take(j as int).contains(s) && !expires(pending@.to_set(), at, s)),
        decreases active@.len() - j,
    {
        let s = active[j];
        let mut expired = false;
        let mut q: usize = 0;
        while q < pending.len()
            invariant
                q <= pending@.len(),
                expired <==> exists|x: int| 0 <= x < q && (#[trigger] pending@[x]).0 <= at && pending@[x].1 == s,
            decreases pending@.len() - q,
        {
            if pending[q].0 <= at && pending[q].1 == s {
                expired = true;
            }
            q += 1;
        }
        proof {
            if expired {
                let x = choose|x: int| 0 <= x < pending@.len() && (#[trigger] pending@[x]).0 <= at && pending@[x].1 == s;
                assert(pending@.to_set().contains(pending@[x]));
            } else {
                if expires(pending@.to_set(), at, s) {
                    let p = choose|p: (usize, usize)| #[trigger] pending@.to_set().contains(p) && p.0 <= at && p.1 == s;
                    let x = choose|x: int| 0 <= x < pending@.len() && pending@[x] == p;
                    assert(pending@[x].0 <= at && pending@[x].1 == s);
                }
            }
        }
        let ghost kept_before = still_active@;
        if !expired {
            still_active.push(s);
        }
        proof {
            assert(active@.take(j + 1) =~= active@.take(j as int).push(s));
            assert forall|x: usize| #[trigger] still_active@.contains(x) <==> (active@.take(j + 1).contains(x) && !expires(pending@.to_set(), at, x)) by {
                vstd::seq_lib::lemma_seq_contains_after_push(active@.take(j as int), s, x);
                vstd::seq_lib::lemma_seq_contains_after_push(kept_before, s, x);
            }
        }
        j += 1;
    }
    proof {
        assert(pending@.take(pending@.len() as int) =~= pending@);
        assert(active@.take(active@.len() as int) =~= active@);
        assert(still_pending@.to_set() =~= pending@.to_set().filter(|p: (usize, usize)| p.0 > at));
        assert(still_active@.to_set() =~= active@.to_set().filter(|s: usize| !expires(pending@.to_set(), at, s)));
    }
    (still_active, still_pending)
}

/// Whether `a` is evaluated no later than `b`.
fn is_evaluated_no_later(a: &PlannedNode, b: &PlannedNode) -> (no_later: bool)
    ensures
        no_later == evaluated_no_later(*a, *b),
{
    let a_at = match a.control_start {
        Some(c) => c,
        None => a.start,
    };
    let b_at = match b.control_start {
        Some(c) => c,
        None => b.start,
    };
    a_at < b_at || (a_at == b_at && a.start <= b.start)
}

/// Siblings in evaluation order, ties in sibling order.
fn evaluation_ordered(nodes: &[PlannedNode]) -> (ordered: Vec<PlannedNode>)
    ensures
        ordered@ == evaluation_order(nodes@),
{
    let mut ordered: Vec<PlannedNode> = Vec::new();
    let mut k: usize = 0;
    while k < nodes.len()
        invariant
            k <= nodes@.len(),
            ordered@ == evaluation_order(nodes@.take(k as int)),
        decreases nodes@.len() - k,
    {
        let n = nodes[k];
        let mut pos = ordered.len();
        while pos > 0 && !is_evaluated_no_later(&ordered[pos - 1], &n)
            invariant
                pos <= ordered@.len(),
                forall|i: int| pos <= i < ordered@.len() ==> !evaluated_no_later(#[trigger] ordered@[i], n),
            decreases pos,
        {
            pos -= 1;
        }
        proof {
            lemma_insert_evaluated_at(ordered@, n, pos as int);
            assert(nodes@.take(k + 1).drop_last() =~= nodes@.take(k as int));
            assert(nodes@.take(k + 1).last() == nodes@[k as int]);
        }
        ordered.insert(pos, n);
        proof {
            assert(ordered@ =~= insert_evaluated(evaluation_order(nodes@.take(k as int)), n));
        }
        k += 1;
    }
    proof {
        assert(nodes@.take(nodes@.len() as int) =~= nodes@);
    }
    ordered
}

// ---------------------------------------------------------------------
// The walk that fills a plan
// ---------------------------------------------------------------------

/// Every subtree's container has fewer children than a child index can
/// hold (see [`ChildIndex::new`]).
pub open spec fn node_fits(node: Node) -> bool
    decreases node, 2nat,
{
    match node {
        Node::Mapping(entry) => entry.children@.len() < usize::MAX / 8 && list_fits(entry.children@),
        Node::Sequence(item) => item.children@.len() < usize::MAX / 8 && list_fits(item.children@),
        Node::Control(region) => branches_fit(region.branches@),
        _ => true,
    }
}

/// [`node_fits`] for every node of `nodes`.
pub open spec fn list_fits(nodes: Seq<Node>) -> bool
    decreases nodes, 1nat,
{
    nodes.len() == 0 || (list_fits(nodes.drop_last()) && node_fits(nodes.last()))
}

/// [`node_fits`] for every node of every branch body.
pub open spec fn branches_fit(branches: Seq<ControlBranch>) -> bool
    decreases branches, 0nat,
{
    branches.len() == 0 || (branches_fit(branches.drop_last()) && list_fits(branches.last().body@))
}

proof fn lemma_list_fits(nodes: Seq<Node>, i: int)
    requires
        list_fits(nodes),
        0 <= i < nodes.len(),
    ensures
        node_fits(nodes[i]),
    decreases nodes.len(),
{
    if i < nodes.len() - 1 {
        lemma_list_fits(nodes.drop_last(), i);
    }
}

proof fn lemma_branches_fit(branches: Seq<ControlBranch>, j: int)
    requires
        branches_fit(branches),
        0 <= j < branches.len(),
    ensures
        list_fits(branches[j].body@),
    decreases branches.len(),
{
    if j < branches.len() - 1 {
        lemma_branches_fit(branches.drop_last(), j);
    }
}

/// Every open container was opened at a depth the path has reached.
pub open spec fn depths_within(containers: Seq<(usize, usize)>, depth: int) -> bool {
    forall|i: int| 0 <= i < containers.len() ==> (#[trigger] containers[i]).1 <= depth
}

/// The outermost open container that starts after `s`.
pub open spec fn first_later(containers: Seq<(usize, usize)>, s: usize) -> Option<(usize, usize)>
    decreases containers.len(),
{
    if containers.len() == 0 {
        None
    } else if containers[0].0 > s {
        Some(containers[0])
    } else {
        first_later(containers.drop_first(), s)
    }
}

/// The earliest control start among escaped controls.
pub open spec fn min_control(controls: Seq<(usize, Seq<NodePathStep>)>) -> Option<usize>
    decreases controls.len(),
{
    if controls.len() == 0 {
        None
    } else {
        min_opt(min_control(controls.drop_last()), Some(controls.last().0))
    }
}

/// The largest end among `children`, and `init`.
pub open spec fn max_end(children: Seq<PlannedNode>, init: usize) -> usize
    decreases children.len(),
{
    if children.len() == 0 {
        init
    } else {
        max_pos(max_end(children.drop_last(), init), children.last().end)
    }
}

/// The largest content end among `children`, and `init`.
pub open spec fn max_content_end(children: Seq<PlannedNode>, init: usize) -> usize
    decreases children.len(),
{
    if children.len() == 0 {
        init
    } else {
        max_pos(max_content_end(children.drop_last(), init), children.last().content_end)
    }
}

/// The escaped controls recorded for `container`.
pub open spec fn controls_at(plan: PlanView, container: usize) -> Seq<(usize, Seq<NodePathStep>)> {
    if plan.controls.contains_key(container) {
        plan.controls[container]
    } else {
        Seq::empty()
    }
}

/// The members recorded for `slot`.
pub open spec fn slot_at(slots: Map<ParentSlot, Set<usize>>, slot: ParentSlot) -> Set<usize> {
    if slots.contains_key(slot) {
        slots[slot]
    } else {
        Set::empty()
    }
}

/// `s` (ordered by control start) with `c` placed in order, unless a
/// control with the same start is already there.
pub open spec fn insert_control(s: Seq<(usize, Seq<NodePathStep>)>, c: (usize, Seq<NodePathStep>)) -> Seq<(usize, Seq<NodePathStep>)>
    decreases s.len(),
{
    if s.len() == 0 {
        seq![c]
    } else if s.last().0 == c.0 {
        s
    } else if s.last().0 < c.0 {
        s.push(c)
    } else {
        insert_control(s.drop_last(), c).push(s.last())
    }
}

/// `plan` with an escaped control recorded under `container`: controls
/// stay ordered by start, and a second control at the same start is not
/// recorded.
pub open spec fn plan_control(plan: PlanView, container: usize, control: (usize, Seq<NodePathStep>)) -> PlanView {
    PlanView { controls: plan.controls.insert(container, insert_control(controls_at(plan, container), control)), ..plan }
}

/// `plan` with container `start`'s child index, source-ordered children
/// and shape recorded, and its start added to its slot if it opens a scope.
pub open spec fn plan_container(plan: PlanView, start: usize, children: Seq<PlannedNode>, shape: ParentShape, opens: bool) -> PlanView {
    PlanView {
        child_indexes: plan.child_indexes.insert(start, children),
        layout_children: plan.layout_children.insert(start, children_in_order(children)),
        parent_shapes: plan.parent_shapes.insert(start, shape),
        parent_slots: if opens {
            plan.parent_slots.insert(shape.slot, slot_at(plan.parent_slots, shape.slot).insert(start))
        } else {
            plan.parent_slots
        },
        ..plan
    }
}

/// Record node `start`'s content end and build its planned node; a node
/// not itself a control takes the earliest control escaped into it.
pub open spec fn plan_finish(
    plan: PlanView,
    start: usize,
    end: usize,
    content_end: usize,
    direct: Option<usize>,
    can_defer: bool,
    disposition: LayoutDisposition,
) -> (PlanView, PlannedNode) {
    let control_start = match direct {
        Some(c) => Some(c),
        None => if plan.controls.contains_key(start) {
            min_control(plan.controls[start])
        } else {
            None
        },
    };
    (
        PlanView { content_ends: plan.content_ends.insert(start, content_end), ..plan },
        PlannedNode { start, end, content_end, control_start, can_defer, disposition },
    )
}

/// The shape of a container at `start`.
pub open spec fn container_shape(
    start: usize,
    containers: Seq<(usize, usize)>,
    kind: ParentKind,
    indent: usize,
    accepts_same_indent: bool,
    children: Seq<Node>,
) -> ParentShape {
    ParentShape {
        start,
        slot: ParentSlot {
            owner_start: if containers.len() > 0 { Some(containers.last().0) } else { None },
            kind,
            indent,
        },
        indent,
        accepts_same_indent,
        established_content_mark: list_mark(children, indent),
    }
}

/// Walk `node` at `path` under the open `containers`: the facts it adds
/// to `plan` and its planned node.
pub open spec fn adopt_node(node: Node, path: Seq<NodePathStep>, containers: Seq<(usize, usize)>, plan: PlanView) -> (PlanView, PlannedNode)
    decreases node, 4nat, 0nat,
{
    let start = node.start();
    match node {
        Node::Mapping(entry) => {
            let walked = adopt_list(entry.children@, path, containers.push((start, path.len() as usize)), plan);
            let children = walked.1;
            let shape = container_shape(start, containers, ParentKind::Entry, entry.indent,
                entry.value is None && entry.block is None, entry.children@);
            let own = own_end(entry.span, entry.value, entry.block);
            plan_finish(
                plan_container(walked.0, start, children, shape, entry.opens_scope),
                start,
                max_end(children, own),
                max_content_end(children, own),
                None,
                true,
                if entry.opens_scope { LayoutDisposition::OpenParent } else { LayoutDisposition::Barrier },
            )
        },
        Node::Sequence(item) => {
            let walked = adopt_list(item.children@, path, containers.push((start, path.len() as usize)), plan);
            let children = walked.1;
            let opens = item.value is None && item.block is None;
            let shape = container_shape(start, containers, ParentKind::Item, item.indent, false, item.children@);
            let own = own_end(item.span, item.value, item.block);
            plan_finish(
                plan_container(walked.0, start, children, shape, opens),
                start,
                max_end(children, own),
                max_content_end(children, own),
                None,
                true,
                if opens { LayoutDisposition::OpenParent } else { LayoutDisposition::Barrier },
            )
        },
        Node::Control(region) => {
            let noted = match first_later(containers, region.span.start) {
                Some(c) => plan_control(plan, c.0, (region.span.start, path.subrange(c.1 as int, path.len() as int))),
                None => plan,
            };
            let walked = adopt_branches(region.branches@, region.branches@.len() as int, region.span.end,
                path, containers, noted);
            plan_finish(walked.0, start, walked.1, walked.2, Some(region.span.start), false,
                LayoutDisposition::Transparent)
        },
        Node::Output(action) => plan_finish(plan, start, action.span.end, action.span.end, None, false,
            LayoutDisposition::Barrier),
        Node::Comment(comment) => plan_finish(plan, start, comment.span.end, comment.span.end, None, false,
            LayoutDisposition::Transparent),
        Node::Scalar(line) => {
            let e = max_pos(parts_end(line.content), line.span.end);
            plan_finish(plan, start, e, e, None, false, LayoutDisposition::Barrier)
        },
        Node::Opaque(opaque) => plan_finish(plan, start, opaque.span.end, opaque.span.end, None, false,
            LayoutDisposition::Transparent),
    }
}

/// Walk sibling `nodes`, then sweep them for crossing priors.
pub open spec fn adopt_list(nodes: Seq<Node>, path: Seq<NodePathStep>, containers: Seq<(usize, usize)>, plan: PlanView) -> (PlanView, Seq<PlannedNode>)
    decreases nodes, 3nat, 0nat,
{
    let walked = adopt_prefix(nodes, nodes.len() as int, path, containers, plan);
    (with_priors(walked.0, crossing_sweep(walked.1, walked.0.crossing_priors)), walked.1)
}

/// Walk the first `k` of sibling `nodes`.
pub open spec fn adopt_prefix(nodes: Seq<Node>, k: int, path: Seq<NodePathStep>, containers: Seq<(usize, usize)>, plan: PlanView) -> (PlanView, Seq<PlannedNode>)
    decreases nodes, 2nat, k,
{
    if k <= 0 || k > nodes.len() {
        (plan, Seq::empty())
    } else {
        let before = adopt_prefix(nodes, k - 1, path, containers, plan);
        let here = adopt_node(nodes[k - 1], path.push(NodePathStep::Child((k - 1) as usize)), containers, before.0);
        (here.0, before.1.push(here.1))
    }
}

/// Walk the first `j` branches of a control region: the plan, and the
/// end and content end so far (from the region's end and from nothing).
pub open spec fn adopt_branches(
    branches: Seq<ControlBranch>,
    j: int,
    region_end: usize,
    path: Seq<NodePathStep>,
    containers: Seq<(usize, usize)>,
    plan: PlanView,
) -> (PlanView, usize, usize)
    decreases branches, 1nat, j,
{
    if j <= 0 || j > branches.len() {
        (plan, region_end, 0)
    } else {
        let before = adopt_branches(branches, j - 1, region_end, path, containers, plan);
        let body = branches[j - 1].body@;
        let walked = adopt_body(body, body.len() as int, (j - 1) as usize, path, containers, before.0);
        (
            with_priors(walked.0, crossing_sweep(walked.1, walked.0.crossing_priors)),
            max_end(walked.1, before.1),
            max_content_end(walked.1, before.2),
        )
    }
}

/// Walk the first `k` nodes of the body of branch `branch`.
pub open spec fn adopt_body(
    body: Seq<Node>,
    k: int,
    branch: usize,
    path: Seq<NodePathStep>,
    containers: Seq<(usize, usize)>,
    plan: PlanView,
) -> (PlanView, Seq<PlannedNode>)
    decreases body, 0nat, k,
{
    if k <= 0 || k > body.len() {
        (plan, Seq::empty())
    } else {
        let before = adopt_body(body, k - 1, branch, path, containers, plan);
        let here = adopt_node(body[k - 1], path.push(NodePathStep::Branch { branch, child: (k - 1) as usize }),
            containers, before.0);
        (here.0, before.1.push(here.1))
    }
}

/// The largest end and content end among `children`, from `end` and
/// `content_end`.
fn fold_ends(children: &Vec<PlannedNode>, end: usize, content_end: usize) -> (ends: (usize, usize))
    ensures
        ends.0 == max_end(children@, end),
        ends.1 == max_content_end(children@, content_end),
{
    let mut e = end;
    let mut c = content_end;
    let mut i: usize = 0;
    while i < children.len()
        invariant
            i <= children@.len(),
            e == max_end(children@.take(i as int), end),
            c == max_content_end(children@.take(i as int), content_end),
        decreases children@.len() - i,
    {
        proof {
            assert(children@.take(i + 1).drop_last() =~= children@.take(i as int));
            assert(children@.take(i + 1).last() == children@[i as int]);
        }
        if children[i].end > e {
            e = children[i].end;
        }
        if children[i].content_end > c {
            c = children[i].content_end;
        }
        i += 1;
    }
    proof {
        assert(children@.take(children@.len() as int) =~= children@);
    }
    (e, c)
}

/// `path[from..]` as its own vector.
fn path_from(path: &Vec<NodePathStep>, from: usize) -> (tail: Vec<NodePathStep>)
    requires
        from <= path@.len(),
    ensures
        tail@ == path@.subrange(from as int, path@.len() as int),
{
    let mut tail: Vec<NodePathStep> = Vec::new();
    let mut i = from;
    while i < path.len()
        invariant
            from <= i <= path@.len(),
            tail@ == path@.subrange(from as int, i as int),
        decreases path@.len() - i,
    {
        tail.push(path[i]);
        proof {
            assert(path@.subrange(from as int, i + 1) =~= path@.subrange(from as int, i as int).push(path@[i as int]));
        }
        i += 1;
    }
    tail
}

/// The outermost open container that starts after `s`.
fn find_later(containers: &Vec<(usize, usize)>, s: usize) -> (found: Option<(usize, usize)>)
    ensures
        found == first_later(containers@, s),
{
    let mut i: usize = 0;
    assert(containers@.skip(0) =~= containers@);
    while i < containers.len()
        invariant
            i <= containers@.len(),
            first_later(containers@, s) == first_later(containers@.skip(i as int), s),
        decreases containers@.len() - i,
    {
        proof {
            assert(containers@.skip(i as int)[0] == containers@[i as int]);
            assert(containers@.skip(i as int).drop_first() =~= containers@.skip(i + 1));
        }
        if containers[i].0 > s {
            return Some(containers[i]);
        }
        i += 1;
    }
    None
}

/// Walk one node: record its facts in `plan` and return its planned node.
/// A mapping entry or sequence item records its child index, its
/// source-ordered children, its shape and slot, and sweeps its children
/// for crossing priors; a control region is recorded as escaped into the
/// outermost open container that starts after it, and its branch bodies
/// are walked and swept branch by branch.
pub fn collect_adoption_node(
    node: &Node,
    path: &mut Vec<NodePathStep>,
    containers: &mut Vec<(usize, usize)>,
    plan: &mut AdoptionPlan,
) -> (planned: PlannedNode)
    requires
        node_fits(*node),
        depths_within(old(containers)@, old(path)@.len() as int),
        old(plan).inv(),
    ensures
        final(path)@ == old(path)@,
        final(containers)@ == old(containers)@,
        final(plan).inv(),
        (final(plan).view(), planned) == adopt_node(*node, old(path)@, old(containers)@, old(plan).view()),
    decreases node, 2nat,
{
    let start = node.span_start();
    match node {
        Node::Mapping(entry) => {
            let ghost outer = containers@;
            let owner_start = if containers.len() > 0 { Some(containers[containers.len() - 1].0) } else { None };
            let depth = path.len();
            containers.push((start, depth));
            let children = collect_adoptions(&entry.children, path, containers, plan);
            containers.pop();
            let shape = ParentShape {
                start,
                slot: ParentSlot { owner_start, kind: ParentKind::Entry, indent: entry.indent },
                indent: entry.indent,
                accepts_same_indent: entry.value.is_none() && entry.block.is_none(),
                established_content_mark: established_content_mark(&entry.children, entry.indent),
            };
            proof {
                assert(shape == container_shape(start, outer, ParentKind::Entry, entry.indent,
                    entry.value is None && entry.block is None, entry.children@));
            }
            plan.add_container(start, &children, shape, entry.opens_scope);
            let own = mapping_own_end(entry);
            let (end, content_end) = fold_ends(&children, own, own);
            let disposition = if entry.opens_scope { LayoutDisposition::OpenParent } else { LayoutDisposition::Barrier };
            plan.finish_node(start, end, content_end, None, true, disposition)
        },
        Node::Sequence(item) => {
            let ghost outer = containers@;
            let owner_start = if containers.len() > 0 { Some(containers[containers.len() - 1].0) } else { None };
            let depth = path.len();
            containers.push((start, depth));
            let children = collect_adoptions(&item.children, path, containers, plan);
            containers.pop();
            let opens = item.value.is_none() && item.block.is_none();
            let shape = ParentShape {
                start,
                slot: ParentSlot { owner_start, kind: ParentKind::Item, indent: item.indent },
                indent: item.indent,
                accepts_same_indent: false,
                established_content_mark: established_content_mark(&item.children, item.indent),
            };
            proof {
                assert(shape == container_shape(start, outer, ParentKind::Item, item.indent, false, item.children@));
            }
            plan.add_container(start, &children, shape, opens);
            let own = sequence_own_end(item);
            let (end, content_end) = fold_ends(&children, own, own);
            let disposition = if opens { LayoutDisposition::OpenParent } else { LayoutDisposition::Barrier };
            plan.finish_node(start, end, content_end, None, true, disposition)
        },
        Node::Control(region) => {
            match find_later(containers, region.span.start) {
                Some((container_start, depth)) => {
                    proof {
                        lemma_first_later_in(containers@, region.span.start);
                    }
                    let tail = path_from(path, depth);
                    plan.push_control(container_start, EscapedControl { control_start: region.span.start, path: tail });
                },
                None => {},
            }
            let (end, content_end) = collect_branch_adoptions(region, path, containers, plan);
            plan.finish_node(start, end, content_end, Some(region.span.start), false, LayoutDisposition::Transparent)
        },
        Node::Output(action) => plan.finish_node(start, action.span.end, action.span.end, None, false,
            LayoutDisposition::Barrier),
        Node::Comment(comment) => plan.finish_node(start, comment.span.end, comment.span.end, None, false,
            LayoutDisposition::Transparent),
        Node::Scalar(line) => {
            let parts = scalar_parts_end(&line.content);
            let e = if parts >= line.span.end { parts } else { line.span.end };
            plan.finish_node(start, e, e, None, false, LayoutDisposition::Barrier)
        },
        Node::Opaque(opaque) => plan.finish_node(start, opaque.span.end, opaque.span.end, None, false,
            LayoutDisposition::Transparent),
    }
}

/// The container [`first_later`] finds is one of the open containers.
proof fn lemma_first_later_in(containers: Seq<(usize, usize)>, s: usize)
    ensures
        first_later(containers, s) matches Some(c) ==> containers.contains(c),
    decreases containers.len(),
{
    if containers.len() > 0 && containers[0].0 <= s {
        lemma_first_later_in(containers.drop_first(), s);
        if let Some(c) = first_later(containers.drop_first(), s) {
            let k = choose|k: int| 0 <= k < containers.drop_first().len() && containers.drop_first()[k] == c;
            assert(containers[k + 1] == c);
        }
    } else if containers.len() > 0 {
        assert(containers[0] == containers[0]);
    }
}

/// Walk sibling `nodes` in order, then sweep them for crossing priors.
pub fn collect_adoptions(
    nodes: &Vec<Node>,
    path: &mut Vec<NodePathStep>,
    containers: &mut Vec<(usize, usize)>,
    plan: &mut AdoptionPlan,
) -> (planned: Vec<PlannedNode>)
    requires
        list_fits(nodes@),
        depths_within(old(containers)@, old(path)@.len() as int),
        old(plan).inv(),
    ensures
        final(path)@ == old(path)@,
        final(containers)@ == old(containers)@,
        final(plan).inv(),
        (final(plan).view(), planned@) == adopt_list(nodes@, old(path)@, old(containers)@, old(plan).view()),
        planned@.len() == nodes@.len(),
    decreases nodes@, 1nat,
{
    let ghost path0 = path@;
    let ghost containers0 = containers@;
    let ghost plan0 = plan.view();
    let mut planned: Vec<PlannedNode> = Vec::new();
    let mut i: usize = 0;
    while i < nodes.len()
        invariant
            i <= nodes@.len(),
            list_fits(nodes@),
            path@ == path0,
            containers@ == containers0,
            depths_within(containers0, path0.len() as int),
            plan.inv(),
            (plan.view(), planned@) == adopt_prefix(nodes@, i as int, path0, containers0, plan0),
            planned@.len() == i,
        decreases nodes@.len() - i,
    {
        proof {
            lemma_list_fits(nodes@, i as int);
        }
        path.push(NodePathStep::Child(i));
        let here = collect_adoption_node(&nodes[i], path, containers, plan);
        path.pop();
        planned.push(here);
        i += 1;
    }
    collect_crossing_priors(planned.as_slice(), plan);
    planned
}

/// Walk a control region's branch bodies, sweeping each body for crossing
/// priors: the end and content end reached (from the region's end and from
/// nothing).
fn collect_branch_adoptions(
    region: &ControlRegion,
    path: &mut Vec<NodePathStep>,
    containers: &mut Vec<(usize, usize)>,
    plan: &mut AdoptionPlan,
) -> (ends: (usize, usize))
    requires
        branches_fit(region.branches@),
        depths_within(old(containers)@, old(path)@.len() as int),
        old(plan).inv(),
    ensures
        final(path)@ == old(path)@,
        final(containers)@ == old(containers)@,
        final(plan).inv(),
        (final(plan).view(), ends.0, ends.1) == adopt_branches(region.branches@, region.branches@.len() as int,
            region.span.end, old(path)@, old(containers)@, old(plan).view()),
    decreases region, 0nat,
{
    let ghost path0 = path@;
    let ghost containers0 = containers@;
    let ghost plan0 = plan.view();
    let mut end = region.span.end;
    let mut content_end: usize = 0;
    let mut j: usize = 0;
    while j < region.branches.len()
        invariant
            j <= region.branches@.len(),
            branches_fit(region.branches@),
            path@ == path0,
            containers@ == containers0,
            depths_within(containers0, path0.len() as int),
            plan.inv(),
            (plan.view(), end, content_end) == adopt_branches(region.branches@, j as int, region.span.end, path0,
                containers0, plan0),
        decreases region.branches@.len() - j,
    {
        let body = &region.branches[j].body;
        let ghost plan_j = plan.view();
        proof {
            lemma_branches_fit(region.branches@, j as int);
        }
        let mut children: Vec<PlannedNode> = Vec::new();
        let mut k: usize = 0;
        while k < body.len()
            invariant
                k <= body@.len(),
                j < region.branches@.len(),
                body@ == region.branches@[j as int].body@,
                list_fits(body@),
                path@ == path0,
                containers@ == containers0,
                depths_within(containers0, path0.len() as int),
                plan.inv(),
                (plan.view(), children@) == adopt_body(body@, k as int, j, path0, containers0, plan_j),
            decreases body@.len() - k,
        {
            proof {
                lemma_list_fits(body@, k as int);
            }
            path.push(NodePathStep::Branch { branch: j, child: k });
            let here = collect_adoption_node(&region.branches[j].body[k], path, containers, plan);
            path.pop();
            children.push(here);
            k += 1;
        }
        collect_crossing_priors(children.as_slice(), plan);
        let (e, c) = fold_ends(&children, end, content_end);
        end = e;
        content_end = c;
        j += 1;
    }
    (end, content_end)
}

/// Walk a document's top-level nodes into a complete plan.
pub fn collect_adoption_plan(nodes: &Vec<Node>) -> (plan: AdoptionPlan)
    requires
        list_fits(nodes@),
    ensures
        plan.inv(),
        plan.view() == adopt_list(nodes@, Seq::empty(), Seq::empty(), empty_view()).0,
        list_follows(nodes@) ==> layout_ascending(plan.view()),
{
    let mut plan = AdoptionPlan::new();
    let mut path: Vec<NodePathStep> = Vec::new();
    let mut containers: Vec<(usize, usize)> = Vec::new();
    proof {
        assert(path@ =~= Seq::<NodePathStep>::empty());
        assert(containers@ =~= Seq::<(usize, usize)>::empty());
    }
    collect_adoptions(nodes, &mut path, &mut containers, &mut plan);
    proof {
        if list_follows(nodes@) {
            lemma_plan_layout_ascending(nodes@);
        }
    }
    plan
}

// ---------------------------------------------------------------------
// Reading a plan
// ---------------------------------------------------------------------

/// The last child that starts before `end` and is not transparent.
pub open spec fn last_visible(children: Seq<PlannedChild>, end: usize) -> Option<PlannedChild>
    decreases children.len(),
{
    if children.len() == 0 {
        None
    } else if children.last().start < end && children.last().disposition != LayoutDisposition::Transparent {
        Some(children.last())
    } else {
        last_visible(children.drop_last(), end)
    }
}

/// Every container's layout children start after the container.
pub open spec fn layout_ascending(plan: PlanView) -> bool {
    forall|k: usize, i: int|
        #![trigger plan.layout_children[k][i]]
        plan.layout_children.contains_key(k) && 0 <= i < plan.layout_children[k].len()
            ==> plan.layout_children[k][i].start > k
}

/// The chain of containers still open just before `end`, below `current`:
/// repeatedly the last visible child, as long as it is an open parent with
/// a recorded shape.
pub open spec fn open_chain(plan: PlanView, current: usize, end: usize) -> Seq<ParentShape>
    decreases usize::MAX - current,
{
    if !plan.layout_children.contains_key(current) {
        Seq::empty()
    } else {
        match last_visible(plan.layout_children[current], end) {
            None => Seq::empty(),
            Some(child) => if child.disposition != LayoutDisposition::OpenParent
                || !plan.parent_shapes.contains_key(child.start) || child.start <= current {
                Seq::empty()
            } else {
                seq![plan.parent_shapes[child.start]] + open_chain(plan, child.start, end)
            },
        }
    }
}

/// The index of the first control whose start is after `bound`.
pub open spec fn first_after(controls: Seq<(usize, Seq<NodePathStep>)>, bound: usize) -> int
    decreases controls.len(),
{
    if controls.len() == 0 {
        0
    } else if controls[0].0 > bound {
        0
    } else {
        1 + first_after(controls.drop_first(), bound)
    }
}

/// Where the control cursor of a node stands once controls through an
/// omitted boundary are skipped.
pub open spec fn resumed_cursor(controls: Seq<(usize, Seq<NodePathStep>)>, cursor: usize, omitted: Option<usize>) -> int {
    match omitted {
        Some(o) => if cursor < controls.len() && controls[cursor as int].0 <= o {
            first_after(controls, o)
        } else {
            cursor as int
        },
        None => cursor as int,
    }
}

/// The position of a control among a node's escaped controls, counted
/// from one.
pub open spec fn control_position(controls: Seq<(usize, Seq<NodePathStep>)>, control_start: usize) -> Option<int> {
    if exists|i: int| 0 <= i < controls.len() && controls[i].0 == control_start {
        Some(1 + choose|i: int| 0 <= i < controls.len() && controls[i].0 == control_start)
    } else {
        None
    }
}

impl AdoptionPlan {
    /// The scope-opening containers of `shape`'s slot that start no later
    /// than `shape`, in source order.
    pub fn slot_members_through(&self, shape: &ParentShape) -> (members: Vec<usize>)
        requires
            self.inv(),
        ensures
            increasing(members@),
            members@.to_set() == slot_at(self.view().parent_slots, shape.slot).filter(|m: usize| m <= shape.start),
    {
        broadcast use vstd::seq_lib::group_seq_properties;
        let mut i: usize = 0;
        while i < self.parent_slots.len() && self.parent_slots[i].0 != shape.slot
            invariant
                i <= self.parent_slots@.len(),
                forall|q: int| 0 <= q < i ==> (#[trigger] self.parent_slots@[q]).0 != shape.slot,
            decreases self.parent_slots@.len() - i,
        {
            i += 1;
        }
        if i == self.parent_slots.len() {
            proof {
                lemma_slots_view_absent(self.parent_slots@, shape.slot);
                assert(slot_at(self.view().parent_slots, shape.slot).filter(|m: usize| m <= shape.start) =~= Set::empty());
                assert(Seq::<usize>::empty().to_set() =~= Set::<usize>::empty());
            }
            return Vec::new();
        }
        proof {
            lemma_slots_view_at(self.parent_slots@, i as int);
        }
        let all = &self.parent_slots[i].1;
        let ghost sorted = all@;
        assert(increasing(sorted));
        let mut members: Vec<usize> = Vec::new();
        let mut k: usize = 0;
        while k < all.len() && all[k] <= shape.start
            invariant
                k <= sorted.len(),
                all@ == sorted,
                increasing(sorted),
                members@ == sorted.take(k as int),
                forall|q: int| 0 <= q < k ==> sorted[q] <= shape.start,
            decreases sorted.len() - k,
        {
            members.push(all[k]);
            proof {
                assert(sorted.take(k + 1) =~= sorted.take(k as int).push(sorted[k as int]));
            }
            k += 1;
        }
        proof {
            let target = slot_at(self.view().parent_slots, shape.slot).filter(|m: usize| m <= shape.start);
            assert(slot_at(self.view().parent_slots, shape.slot) == sorted.to_set());
            assert forall|m: usize| #[trigger] members@.to_set().contains(m) <==> target.contains(m) by {
                if members@.contains(m) {
                    let q = choose|q: int| 0 <= q < members@.len() && members@[q] == m;
                    assert(sorted[q] == m);
                }
                if target.contains(m) {
                    let q = choose|q: int| 0 <= q < sorted.len() && sorted[q] == m;
                    if q >= k {
                        assert(sorted[k as int] <= sorted[q]);
                    }
                    assert(members@[q] == m);
                }
            }
            assert(members@.to_set() =~= target);
        }
        members
    }

    /// The source-known containers still open immediately before `end`,
    /// outermost first, below container `root_start`.
    pub fn trailing_open_chain(&self, root_start: usize, end: usize) -> (chain: Vec<ParentShape>)
        requires
            layout_ascending(self.view()),
        ensures
            chain@ == open_chain(self.view(), root_start, end),
    {
        broadcast use vstd::std_specs::hash::group_hash_axioms;
        let ghost v = self.view();
        let mut chain: Vec<ParentShape> = Vec::new();
        let mut current = root_start;
        loop
            invariant
                v == self.view(),
                layout_ascending(v),
                chain@ + open_chain(v, current, end) == open_chain(v, root_start, end),
            decreases usize::MAX - current,
        {
            let children = match self.layout_children.get(&current) {
                Some(children) => children,
                None => {
                    proof {
                        assert(chain@ + open_chain(v, current, end) =~= chain@);
                    }
                    return chain;
                },
            };
            let mut i = children.len();
            assert(children@.take(children@.len() as int) =~= children@);
            while i > 0 && !(children[i - 1].start < end && children[i - 1].disposition != LayoutDisposition::Transparent)
                invariant
                    i <= children@.len(),
                    last_visible(children@, end) == last_visible(children@.take(i as int), end),
                decreases i,
            {
                proof {
                    assert(children@.take(i - 1) =~= children@.take(i as int).drop_last());
                }
                i -= 1;
            }
            if i == 0 {
                proof {
                    assert(children@.take(0) =~= Seq::<PlannedChild>::empty());
                    assert(chain@ + open_chain(v, current, end) =~= chain@);
                }
                return chain;
            }
            let child = children[i - 1];
            proof {
                assert(children@.take(i as int).last() == child);
                assert(v.layout_children[current][i - 1] == child);
            }
            if child.disposition != LayoutDisposition::OpenParent {
                proof {
                    assert(chain@ + open_chain(v, current, end) =~= chain@);
                }
                return chain;
            }
            let shape = match self.parent_shapes.get(&child.start) {
                Some(shape) => *shape,
                None => {
                    proof {
                        assert(chain@ + open_chain(v, current, end) =~= chain@);
                    }
                    return chain;
                },
            };
            proof {
                assert(chain@.push(shape) + open_chain(v, child.start, end) =~= chain@ + open_chain(v, current, end));
            }
            chain.push(shape);
            current = child.start;
        }
    }

    /// Where node `start`'s real content ends, if the node was walked.
    pub fn content_end(&self, start: usize) -> (end: Option<usize>)
        ensures
            end == if self.view().content_ends.contains_key(start) {
                Some(self.view().content_ends[start])
            } else {
                None
            },
    {
        broadcast use vstd::std_specs::hash::group_hash_axioms;
        match self.content_ends.get(&start) {
            Some(end) => Some(*end),
            None => None,
        }
    }

    /// The shape of container `start`, if it was walked.
    pub fn parent_shape(&self, start: usize) -> (shape: Option<ParentShape>)
        ensures
            shape == if self.view().parent_shapes.contains_key(start) {
                Some(self.view().parent_shapes[start])
            } else {
                None
            },
    {
        broadcast use vstd::std_specs::hash::group_hash_axioms;
        match self.parent_shapes.get(&start) {
            Some(shape) => Some(*shape),
            None => None,
        }
    }

    /// The child index of container `start`, if it was walked.
    pub fn child_index(&self, start: usize) -> (index: Option<&ChildIndex>)
        ensures
            match index {
                Some(ci) => self.view().child_indexes.contains_key(start) && ci.children() == self.view().child_indexes[start],
                None => !self.view().child_indexes.contains_key(start),
            },
    {
        broadcast use vstd::std_specs::hash::group_hash_axioms;
        self.child_indexes.get(&start)
    }

    /// The starts of earlier siblings still open at control region
    /// `control_start`, in source order.
    pub fn crossing_priors(&self, control_start: usize) -> (priors: Vec<usize>)
        requires
            self.inv(),
        ensures
            increasing(priors@),
            priors@.to_set() == priors_at(self.view().crossing_priors, control_start),
    {
        broadcast use vstd::std_specs::hash::group_hash_axioms;
        match self.crossing_priors.get(&control_start) {
            Some(list) => {
                let mut copy: Vec<usize> = Vec::new();
                let mut i: usize = 0;
                while i < list.len()
                    invariant
                        i <= list@.len(),
                        copy@ == list@.take(i as int),
                    decreases list@.len() - i,
                {
                    copy.push(list[i]);
                    proof {
                        assert(list@.take(i + 1) =~= list@.take(i as int).push(list@[i as int]));
                    }
                    i += 1;
                }
                proof {
                    assert(list@.take(list@.len() as int) =~= list@);
                }
                copy
            },
            None => {
                proof {
                    assert(Seq::<usize>::empty().to_set() =~= Set::<usize>::empty());
                }
                Vec::new()
            },
        }
    }

    /// The next control region escaped into `node` from `cursor` on: the
    /// cursor first skips controls through an omitted boundary; the
    /// control at the cursor is taken when its start lies in `window` and
    /// its path leads to a control region. Returns that region and the
    /// cursor after it.
    pub fn escaped_control<'n>(
        &self,
        node: &'n Node,
        cursor: usize,
        omitted: Option<usize>,
        window: SourceWindow,
    ) -> (found: Option<(&'n ControlRegion, usize)>)
        ensures
            ({
                let controls = controls_at(self.view(), node.start());
                let at = resumed_cursor(controls, cursor, omitted);
                match found {
                    Some((region, next)) => {
                        &&& 0 <= at < controls.len()
                        &&& window.spec_contains(controls[at].0 as int)
                        &&& node_at(*node, controls[at].1) == Some(Node::Control(*region))
                        &&& next == at + 1
                    },
                    None => !(0 <= at < controls.len()) || !window.spec_contains(controls[at].0 as int)
                        || !(node_at(*node, controls[at].1) matches Some(Node::Control(_))),
                }
            }),
    {
        broadcast use vstd::std_specs::hash::group_hash_axioms;
        let start = node.span_start();
        let controls = match self.controls.get(&start) {
            Some(controls) => controls,
            None => {
                return None;
            },
        };
        let ghost cv = escaped_view(controls@);
        assert(cv == controls_at(self.view(), start));
        let mut at = cursor;
        if let Some(o) = omitted {
            if cursor < controls.len() && controls[cursor].control_start <= o {
                let mut p: usize = 0;
                assert(cv.skip(0) =~= cv);
                while p < controls.len() && controls[p].control_start <= o
                    invariant
                        p <= cv.len(),
                        cv == escaped_view(controls@),
                        first_after(cv, o) == p + first_after(cv.skip(p as int), o),
                    decreases cv.len() - p,
                {
                    proof {
                        assert(cv.skip(p as int)[0] == cv[p as int]);
                        assert(cv.skip(p as int).drop_first() =~= cv.skip(p + 1));
                    }
                    p += 1;
                }
                proof {
                    if p < cv.len() {
                        assert(cv.skip(p as int)[0] == cv[p as int]);
                    }
                }
                at = p;
            }
        }
        if at >= controls.len() {
            return None;
        }
        let planned = &controls[at];
        if !window.contains(planned.control_start) {
            return None;
        }
        match control_at_path(node, planned.path.as_slice()) {
            Some(region) => Some((region, at + 1)),
            None => None,
        }
    }

    /// The control cursor of node `node_start` after control
    /// `control_start` has run: one past that control's position among
    /// the node's escaped controls, never moving back from `cursor`.
    pub fn cursor_after_control(&self, node_start: usize, control_start: usize, cursor: usize) -> (next: usize)
        requires
            self.inv(),
        ensures
            next == match control_position(controls_at(self.view(), node_start), control_start) {
                Some(p) => if p >= cursor { p } else { cursor as int },
                None => cursor as int,
            },
    {
        broadcast use vstd::std_specs::hash::group_hash_axioms;
        let controls = match self.controls.get(&node_start) {
            Some(controls) => controls,
            None => {
                return cursor;
            },
        };
        let ghost cv = escaped_view(controls@);
        assert(cv == controls_at(self.view(), node_start));
        assert(controls_increasing(cv));
        let mut i: usize = 0;
        while i < controls.len()
            invariant
                i <= cv.len(),
                cv == escaped_view(controls@),
                cv == controls_at(self.view(), node_start),
                controls_increasing(cv),
                forall|q: int| 0 <= q < i ==> (#[trigger] cv[q]).0 != control_start,
            decreases cv.len() - i,
        {
            if controls[i].control_start == control_start {
                proof {
                    assert(cv[i as int].0 == control_start);
                    let c = choose|q: int| 0 <= q < cv.len() && cv[q].0 == control_start;
                    if c < i {
                        assert(cv[c].0 != control_start);
                    }
                    if c > i {
                        assert(cv[i as int].0 < cv[c].0);
                    }
                    assert(control_position(cv, control_start) == Some(i + 1));
                }
                let position = i + 1;
                return if position >= cursor { position } else { cursor };
            }
            i += 1;
        }
        cursor
    }
}

// ---------------------------------------------------------------------
// Laws of the plan
// ---------------------------------------------------------------------

/// Where [`insert_child`] places `c`: after every element that starts at
/// or before it, before the trailing elements that start after it.
proof fn lemma_insert_child_shape(s: Seq<PlannedChild>, c: PlannedChild) -> (p: int)
    ensures
        0 <= p <= s.len(),
        insert_child(s, c) == s.take(p).push(c) + s.skip(p),
        forall|i: int| p <= i < s.len() ==> (#[trigger] s[i]).start > c.start,
        p > 0 ==> s[p - 1].start <= c.start,
    decreases s.len(),
{
    if s.len() == 0 || s.last().start <= c.start {
        assert(s.take(s.len() as int) =~= s);
        assert(s.take(s.len() as int).push(c) + s.skip(s.len() as int) =~= s.push(c));
        s.len() as int
    } else {
        let d = s.drop_last();
        let p = lemma_insert_child_shape(d, c);
        assert(d.take(p) =~= s.take(p));
        assert((d.take(p).push(c) + d.skip(p)).push(s.last()) =~= s.take(p).push(c) + s.skip(p));
        assert forall|i: int| p <= i < s.len() implies (#[trigger] s[i]).start > c.start by {
            if i < s.len() - 1 {
                assert(s[i] == d[i]);
            }
        }
        p
    }
}

/// Source order is a stable sort of the children by start: it lists the
/// layout view of child `order[i]` at position `i`, every child exactly
/// once, starts never decrease, and children with equal starts keep
/// their order.
#[verifier::spinoff_prover]
#[verifier::rlimit(40)]
pub proof fn lemma_children_in_order_is_stable_sort(children: Seq<PlannedNode>) -> (order: Seq<int>)
    ensures
        order.len() == children.len(),
        children_in_order(children).len() == children.len(),
        forall|i: int| 0 <= i < order.len() ==> 0 <= #[trigger] order[i] < children.len(),
        forall|i: int| 0 <= i < order.len() ==> #[trigger] children_in_order(children)[i] == layout_child(children[order[i]]),
        forall|i: int, j: int| 0 <= i < j < order.len() ==> #[trigger] order[i] != #[trigger] order[j],
        forall|i: int, j: int|
            0 <= i < j < order.len() ==> #[trigger] children_in_order(children)[i].start <= #[trigger] children_in_order(
                children,
            )[j].start,
        forall|i: int, j: int|
            0 <= i < j < order.len() && children_in_order(children)[i].start == children_in_order(children)[j].start
                ==> #[trigger] order[i] < #[trigger] order[j],
    decreases children.len(),
{
    if children.len() == 0 {
        Seq::empty()
    } else {
        let d = children.drop_last();
        let prev = lemma_children_in_order_is_stable_sort(d);
        let s = children_in_order(d);
        let c = layout_child(children.last());
        let p = lemma_insert_child_shape(s, c);
        let n = children.len() - 1;
        let order = prev.take(p).push(n) + prev.skip(p);
        let r = children_in_order(children);
        assert(r == s.take(p).push(c) + s.skip(p));
        assert forall|i: int| 0 <= i < order.len() implies #[trigger] r[i] == layout_child(children[order[i]]) by {
            if i < p {
                assert(r[i] == s[i] && order[i] == prev[i]);
                assert(children[prev[i]] == d[prev[i]]);
            } else if i > p {
                assert(r[i] == s[i - 1] && order[i] == prev[i - 1]);
                assert(children[prev[i - 1]] == d[prev[i - 1]]);
            }
        }
        assert forall|i: int| 0 <= i < order.len() implies 0 <= #[trigger] order[i] < children.len() by {
            if i < p {
                assert(order[i] == prev[i]);
            } else if i > p {
                assert(order[i] == prev[i - 1]);
            }
        }
        assert forall|i: int, j: int| 0 <= i < j < order.len() implies #[trigger] order[i] != #[trigger] order[j] by {
            if i < p && j < p {
                assert(order[i] == prev[i] && order[j] == prev[j]);
            } else if i < p && j > p {
                assert(order[i] == prev[i] && order[j] == prev[j - 1]);
            } else if i > p && j > p {
                assert(order[i] == prev[i - 1] && order[j] == prev[j - 1]);
            } else if i == p {
                assert(order[j] == prev[j - 1]);
            } else {
                assert(order[i] == prev[i]);
            }
        }
        assert forall|i: int, j: int| 0 <= i < j < order.len() implies #[trigger] r[i].start <= #[trigger] r[j].start by {
            if i < p && j < p {
                assert(r[i] == s[i] && r[j] == s[j]);
            } else if i < p && j == p {
                assert(r[i] == s[i]);
                assert(s[i].start <= s[p - 1].start);
            } else if i < p {
                assert(r[i] == s[i] && r[j] == s[j - 1]);
            } else if i == p {
                assert(r[j] == s[j - 1]);
            } else {
                assert(r[i] == s[i - 1] && r[j] == s[j - 1]);
            }
        }
        assert forall|i: int, j: int|
            0 <= i < j < order.len() && r[i].start == r[j].start implies #[trigger] order[i] < #[trigger] order[j] by {
            if i < p && j < p {
                assert(r[i] == s[i] && r[j] == s[j]);
                assert(order[i] == prev[i] && order[j] == prev[j]);
            } else if i < p && j == p {
                assert(order[i] == prev[i]);
            } else if i < p {
                assert(r[i] == s[i] && r[j] == s[j - 1]);
                assert(order[i] == prev[i] && order[j] == prev[j - 1]);
            } else if i == p {
                assert(r[j] == s[j - 1]);
            } else {
                assert(r[i] == s[i - 1] && r[j] == s[j - 1]);
                assert(order[i] == prev[i - 1] && order[j] == prev[j - 1]);
            }
        }
        order
    }
}

/// Every child of every container starts after the container, through
/// control bodies too.
pub open spec fn node_follows(node: Node) -> bool
    decreases node, 2nat,
{
    match node {
        Node::Mapping(entry) => (forall|i: int|
            0 <= i < entry.children@.len() ==> (#[trigger] entry.children@[i]).start() > entry.span.start)
            && list_follows(entry.children@),
        Node::Sequence(item) => (forall|i: int|
            0 <= i < item.children@.len() ==> (#[trigger] item.children@[i]).start() > item.span.start)
            && list_follows(item.children@),
        Node::Control(region) => branches_follow(region.branches@),
        _ => true,
    }
}

/// [`node_follows`] for every node of `nodes`.
pub open spec fn list_follows(nodes: Seq<Node>) -> bool
    decreases nodes, 1nat,
{
    nodes.len() == 0 || (list_follows(nodes.drop_last()) && node_follows(nodes.last()))
}

/// [`node_follows`] for every node of every branch body.
pub open spec fn branches_follow(branches: Seq<ControlBranch>) -> bool
    decreases branches, 0nat,
{
    branches.len() == 0 || (branches_follow(branches.drop_last()) && list_follows(branches.last().body@))
}

proof fn lemma_list_follows(nodes: Seq<Node>, i: int)
    requires
        list_follows(nodes),
        0 <= i < nodes.len(),
    ensures
        node_follows(nodes[i]),
    decreases nodes.len(),
{
    if i < nodes.len() - 1 {
        lemma_list_follows(nodes.drop_last(), i);
    }
}

proof fn lemma_branches_follow(branches: Seq<ControlBranch>, j: int)
    requires
        branches_follow(branches),
        0 <= j < branches.len(),
    ensures
        list_follows(branches[j].body@),
    decreases branches.len(),
{
    if j < branches.len() - 1 {
        lemma_branches_follow(branches.drop_last(), j);
    }
}

/// Recording a container whose children start after it keeps the layout
/// ascending.
proof fn lemma_container_ascending(plan: PlanView, start: usize, children: Seq<PlannedNode>, shape: ParentShape, opens: bool)
    requires
        layout_ascending(plan),
        forall|i: int| 0 <= i < children.len() ==> (#[trigger] children[i]).start > start,
    ensures
        layout_ascending(plan_container(plan, start, children, shape, opens)),
{
    let order = lemma_children_in_order_is_stable_sort(children);
    let r = children_in_order(children);
    let after = plan_container(plan, start, children, shape, opens);
    assert forall|k: usize, i: int|
        #![trigger after.layout_children[k][i]]
        after.layout_children.contains_key(k) && 0 <= i < after.layout_children[k].len()
            implies after.layout_children[k][i].start > k by {
        if k == start {
            assert(r[i] == layout_child(children[order[i]]));
        } else {
            assert(after.layout_children[k] == plan.layout_children[k]);
        }
    }
}

/// Walking a node whose children follow it keeps the layout ascending,
/// and its planned node starts where it does.
proof fn lemma_adopt_node_ascending(node: Node, path: Seq<NodePathStep>, containers: Seq<(usize, usize)>, plan: PlanView)
    requires
        layout_ascending(plan),
        node_follows(node),
    ensures
        layout_ascending(adopt_node(node, path, containers, plan).0),
        adopt_node(node, path, containers, plan).1.start == node.start(),
    decreases node, 4nat, 0nat,
{
    let start = node.start();
    match node {
        Node::Mapping(entry) => {
            let inner = containers.push((start, path.len() as usize));
            lemma_adopt_list_ascending(entry.children@, path, inner, plan);
            let walked = adopt_list(entry.children@, path, inner, plan);
            let shape = container_shape(start, containers, ParentKind::Entry, entry.indent,
                entry.value is None && entry.block is None, entry.children@);
            assert forall|i: int| 0 <= i < walked.1.len() implies (#[trigger] walked.1[i]).start > start by {
                assert(entry.children@[i].start() > entry.span.start);
            }
            lemma_container_ascending(walked.0, start, walked.1, shape, entry.opens_scope);
        },
        Node::Sequence(item) => {
            let inner = containers.push((start, path.len() as usize));
            lemma_adopt_list_ascending(item.children@, path, inner, plan);
            let walked = adopt_list(item.children@, path, inner, plan);
            let opens = item.value is None && item.block is None;
            let shape = container_shape(start, containers, ParentKind::Item, item.indent, false, item.children@);
            assert forall|i: int| 0 <= i < walked.1.len() implies (#[trigger] walked.1[i]).start > start by {
                assert(item.children@[i].start() > item.span.start);
            }
            lemma_container_ascending(walked.0, start, walked.1, shape, opens);
        },
        Node::Control(region) => {
            let noted = match first_later(containers, region.span.start) {
                Some(c) => plan_control(plan, c.0, (region.span.start, path.subrange(c.1 as int, path.len() as int))),
                None => plan,
            };
            assert(noted.layout_children == plan.layout_children);
            lemma_adopt_branches_ascending(region.branches@, region.branches@.len() as int, region.span.end,
                path, containers, noted);
        },
        _ => {},
    }
}

/// Walking siblings that follow their containers keeps the layout
/// ascending; their planned nodes start where they do.
proof fn lemma_adopt_list_ascending(nodes: Seq<Node>, path: Seq<NodePathStep>, containers: Seq<(usize, usize)>, plan: PlanView)
    requires
        layout_ascending(plan),
        list_follows(nodes),
    ensures
        layout_ascending(adopt_list(nodes, path, containers, plan).0),
        adopt_list(nodes, path, containers, plan).1.len() == nodes.len(),
        forall|i: int| 0 <= i < nodes.len() ==> (#[trigger] adopt_list(nodes, path, containers, plan).1[i]).start
            == nodes[i].start(),
    decreases nodes, 3nat, 0nat,
{
    lemma_adopt_prefix_ascending(nodes, nodes.len() as int, path, containers, plan);
}

proof fn lemma_adopt_prefix_ascending(
    nodes: Seq<Node>,
    k: int,
    path: Seq<NodePathStep>,
    containers: Seq<(usize, usize)>,
    plan: PlanView,
)
    requires
        layout_ascending(plan),
        list_follows(nodes),
        0 <= k <= nodes.len(),
    ensures
        layout_ascending(adopt_prefix(nodes, k, path, containers, plan).0),
        adopt_prefix(nodes, k, path, containers, plan).1.len() == k,
        forall|i: int| 0 <= i < k ==> (#[trigger] adopt_prefix(nodes, k, path, containers, plan).1[i]).start
            == nodes[i].start(),
    decreases nodes, 2nat, k,
{
    if k > 0 {
        lemma_adopt_prefix_ascending(nodes, k - 1, path, containers, plan);
        let before = adopt_prefix(nodes, k - 1, path, containers, plan);
        lemma_list_follows(nodes, k - 1);
        lemma_adopt_node_ascending(nodes[k - 1], path.push(NodePathStep::Child((k - 1) as usize)), containers, before.0);
    }
}

proof fn lemma_adopt_branches_ascending(
    branches: Seq<ControlBranch>,
    j: int,
    region_end: usize,
    path: Seq<NodePathStep>,
    containers: Seq<(usize, usize)>,
    plan: PlanView,
)
    requires
        layout_ascending(plan),
        branches_follow(branches),
        0 <= j <= branches.len(),
    ensures
        layout_ascending(adopt_branches(branches, j, region_end, path, containers, plan).0),
    decreases branches, 1nat, j,
{
    if j > 0 {
        lemma_adopt_branches_ascending(branches, j - 1, region_end, path, containers, plan);
        let before = adopt_branches(branches, j - 1, region_end, path, containers, plan);
        let body = branches[j - 1].body@;
        lemma_branches_follow(branches, j - 1);
        lemma_adopt_body_ascending(body, body.len() as int, (j - 1) as usize, path, containers, before.0);
    }
}

proof fn lemma_adopt_body_ascending(
    body: Seq<Node>,
    k: int,
    branch: usize,
    path: Seq<NodePathStep>,
    containers: Seq<(usize, usize)>,
    plan: PlanView,
)
    requires
        layout_ascending(plan),
        list_follows(body),
        0 <= k <= body.len(),
    ensures
        layout_ascending(adopt_body(body, k, branch, path, containers, plan).0),
    decreases body, 0nat, k,
{
    if k > 0 {
        lemma_adopt_body_ascending(body, k - 1, branch, path, containers, plan);
        let before = adopt_body(body, k - 1, branch, path, containers, plan);
        lemma_list_follows(body, k - 1);
        lemma_adopt_node_ascending(body[k - 1], path.push(NodePathStep::Branch { branch, child: (k - 1) as usize }),
            containers, before.0);
    }
}

/// A plan walked from a tree whose children start after their containers
/// has an ascending layout: every open chain walks strictly forward.
pub proof fn lemma_plan_layout_ascending(nodes: Seq<Node>)
    requires
        list_follows(nodes),
    ensures
        layout_ascending(adopt_list(nodes, Seq::empty(), Seq::empty(), empty_view()).0),
{
    lemma_adopt_list_ascending(nodes, Seq::empty(), Seq::empty(), empty_view());
}

/// Some sibling of `nodes` that can own deferred content starts at `x`.
pub open spec fn deferrable_start(nodes: Seq<PlannedNode>, x: usize) -> bool {
    exists|i: int| 0 <= i < nodes.len() && (#[trigger] nodes[i]).start == x && nodes[i].can_defer
}

/// Inserting in evaluation order adds exactly the inserted node.
proof fn lemma_insert_evaluated_members(s: Seq<PlannedNode>, n: PlannedNode)
    ensures
        forall|x: PlannedNode| #[trigger] insert_evaluated(s, n).contains(x) ==> s.contains(x) || x == n,
    decreases s.len(),
{
    broadcast use vstd::seq_lib::group_seq_properties;
    if s.len() > 0 && !evaluated_no_later(s.last(), n) {
        let d = s.drop_last();
        lemma_insert_evaluated_members(d, n);
        assert forall|x: PlannedNode| #[trigger] insert_evaluated(s, n).contains(x) implies s.contains(x) || x == n by {
            if insert_evaluated(d, n).contains(x) {
                if d.contains(x) {
                    let k = choose|k: int| 0 <= k < d.len() && d[k] == x;
                    assert(s[k] == x);
                }
            } else {
                assert(x == s.last());
                assert(s.contains(s.last()));
            }
        }
    }
}

/// Evaluation order lists only the siblings themselves.
proof fn lemma_evaluation_order_members(nodes: Seq<PlannedNode>)
    ensures
        forall|x: PlannedNode| #[trigger] evaluation_order(nodes).contains(x) ==> nodes.contains(x),
    decreases nodes.len(),
{
    broadcast use vstd::seq_lib::group_seq_properties;
    if nodes.len() > 0 {
        let d = nodes.drop_last();
        lemma_evaluation_order_members(d);
        lemma_insert_evaluated_members(evaluation_order(d), nodes.last());
        assert forall|x: PlannedNode| #[trigger] evaluation_order(nodes).contains(x) implies nodes.contains(x) by {
            if evaluation_order(d).contains(x) {
                let k = choose|k: int| 0 <= k < d.len() && d[k] == x;
                assert(nodes[k] == x);
            } else {
                assert(nodes[nodes.len() - 1] == x);
            }
        }
    }
}

/// What a sweep keeps open, and every prior it adds, is the start of a
/// swept sibling that can own deferred content.
proof fn lemma_sweep_deferrable(ordered: Seq<PlannedNode>, priors: Map<usize, Set<usize>>)
    ensures
        forall|x: usize| #[trigger] sweep(ordered, priors).active.contains(x) ==> deferrable_start(ordered, x),
        forall|c: usize, x: usize|
            #[trigger] priors_at(sweep(ordered, priors).priors, c).contains(x) && !priors_at(priors, c).contains(x)
                ==> deferrable_start(ordered, x),
    decreases ordered.len(),
{
    if ordered.len() > 0 {
        let d = ordered.drop_last();
        lemma_sweep_deferrable(d, priors);
        let n = ordered.last();
        let st = sweep(d, priors);
        assert forall|x: usize| deferrable_start(d, x) implies deferrable_start(ordered, x) by {
            let i = choose|i: int| 0 <= i < d.len() && (#[trigger] d[i]).start == x && d[i].can_defer;
            assert(ordered[i] == d[i]);
        }
        if n.can_defer {
            assert(ordered[ordered.len() - 1] == n);
            assert(deferrable_start(ordered, n.start));
        }
        let at = evaluation_start(n);
        let active = st.active.filter(|s: usize| !expires(st.pending, at, s));
        assert forall|c: usize, x: usize|
            #[trigger] priors_at(sweep(ordered, priors).priors, c).contains(x) && !priors_at(priors, c).contains(x)
                implies deferrable_start(ordered, x) by {
            if !priors_at(st.priors, c).contains(x) {
                assert(active.contains(x));
                assert(st.active.contains(x));
            }
        }
    }
}

/// Every crossing prior a sweep records for a control region names a
/// sibling that can own deferred content: the start of an earlier sibling
/// that escaped forward into the region, never a line or an output.
pub proof fn lemma_priors_are_deferrable_siblings(nodes: Seq<PlannedNode>, priors: Map<usize, Set<usize>>, c: usize, x: usize)
    requires
        priors_at(crossing_sweep(nodes, priors), c).contains(x),
        !priors_at(priors, c).contains(x),
    ensures
        deferrable_start(nodes, x),
{
    broadcast use vstd::seq_lib::group_seq_properties;
    let ordered = evaluation_order(nodes);
    lemma_sweep_deferrable(ordered, priors);
    assert(deferrable_start(ordered, x));
    let i = choose|i: int| 0 <= i < ordered.len() && (#[trigger] ordered[i]).start == x && ordered[i].can_defer;
    lemma_evaluation_order_members(nodes);
    assert(ordered.contains(ordered[i]));
    assert(nodes.contains(ordered[i]));
    let k = choose|k: int| 0 <= k < nodes.len() && nodes[k] == ordered[i];
    assert(nodes[k].start == x && nodes[k].can_defer);
}

} // verus!
