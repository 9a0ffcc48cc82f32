//! Disjunctions of path conditions: the condition under which any of
//! several exits is taken, with its disjuncts in a canonical order; and,
//! in the same order, the set of conjuncts a chain of conditions makes.
//!
//! Predicates are ordered as a derived ordering of [`Predicate`] orders
//! them: by variant in declaration order, then by contents, sequences
//! lexicographically.

use vstd::prelude::*;

use crate::contributions::{outcomes_view, ControlOutcome, LoopControl};
use crate::domain::PathCondition;
use crate::predicate::{views, Guard, GuardKind, Predicate, PredicateView};

verus! {

broadcast use crate::predicate::group_views;

/// The result of comparing two values.
#[derive(Clone, Copy, Debug, PartialEq, Eq, Structural)]
pub enum Comparison {
    Less,
    Equal,
    Greater,
}

/// Two integers compared.
pub open spec fn compare_ints(a: int, b: int) -> Comparison {
    if a < b {
        Comparison::Less
    } else if a == b {
        Comparison::Equal
    } else {
        Comparison::Greater
    }
}

/// `first`, or `next` where `first` is a tie.
pub open spec fn tie_break(first: Comparison, next: Comparison) -> Comparison {
    if first == Comparison::Equal {
        next
    } else {
        first
    }
}

/// The declaration position of a guard kind.
pub open spec fn kind_rank(kind: GuardKind) -> int {
    match kind {
        GuardKind::Truthy => 0,
        GuardKind::Not => 1,
        GuardKind::Default => 2,
        GuardKind::Range => 3,
        GuardKind::Other => 4,
    }
}

/// The declaration position of a predicate's variant.
pub open spec fn variant_rank(p: PredicateView) -> int {
    match p {
        PredicateView::True => 0,
        PredicateView::False => 1,
        PredicateView::Guard(_) => 2,
        PredicateView::Not(_) => 3,
        PredicateView::And(_) => 4,
        PredicateView::Or(_) => 5,
        PredicateView::Approximate(_) => 6,
    }
}

/// Two guards compared by kind, then by path.
pub open spec fn compare_guards(a: Guard, b: Guard) -> Comparison {
    tie_break(compare_ints(kind_rank(a.kind), kind_rank(b.kind)), compare_ints(a.path as int, b.path as int))
}

/// Two predicates compared: by variant, then by contents.
pub open spec fn compare_views(a: PredicateView, b: PredicateView) -> Comparison
    decreases a, 1nat, 0int,
{
    let by_variant = compare_ints(variant_rank(a), variant_rank(b));
    if by_variant != Comparison::Equal {
        by_variant
    } else {
        match (a, b) {
            (PredicateView::Guard(x), PredicateView::Guard(y)) => compare_guards(x, y),
            (PredicateView::Not(x), PredicateView::Not(y)) => compare_views(*x, *y),
            (PredicateView::And(xs), PredicateView::And(ys)) => compare_seqs(xs, ys, 0),
            (PredicateView::Or(xs), PredicateView::Or(ys)) => compare_seqs(xs, ys, 0),
            (PredicateView::Approximate(x), PredicateView::Approximate(y)) => compare_ints(x as int, y as int),
            _ => Comparison::Equal,
        }
    }
}

/// Two predicate sequences compared lexicographically from position `i`.
pub open spec fn compare_seqs(xs: Seq<PredicateView>, ys: Seq<PredicateView>, i: nat) -> Comparison
    decreases xs, 0nat, xs.len() - i,
{
    if i >= xs.len() {
        if i < ys.len() {
            Comparison::Less
        } else {
            Comparison::Equal
        }
    } else if i >= ys.len() {
        Comparison::Greater
    } else {
        let here = compare_views(xs[i as int], ys[i as int]);
        if here != Comparison::Equal {
            here
        } else {
            compare_seqs(xs, ys, (i + 1) as nat)
        }
    }
}

/// Two integers compared.
fn compare_u64(a: u64, b: u64) -> (c: Comparison)
    ensures
        c == compare_ints(a as int, b as int),
{
    if a < b {
        Comparison::Less
    } else if a == b {
        Comparison::Equal
    } else {
        Comparison::Greater
    }
}

/// The declaration position of a guard kind.
fn kind_position(kind: GuardKind) -> (rank: u64)
    ensures
        rank == kind_rank(kind),
{
    match kind {
        GuardKind::Truthy => 0,
        GuardKind::Not => 1,
        GuardKind::Default => 2,
        GuardKind::Range => 3,
        GuardKind::Other => 4,
    }
}

/// The declaration position of a predicate's variant.
fn variant_position(p: &Predicate) -> (rank: u64)
    ensures
        rank == variant_rank(p@),
{
    match p {
        Predicate::True => 0,
        Predicate::False => 1,
        Predicate::Guard(_) => 2,
        Predicate::Not(_) => 3,
        Predicate::And(_) => 4,
        Predicate::Or(_) => 5,
        Predicate::Approximate(_) => 6,
    }
}

/// Compare two predicates: by variant, then by contents.
pub fn compare_predicates(a: &Predicate, b: &Predicate) -> (c: Comparison)
    ensures
        c == compare_views(a@, b@),
    decreases a, 1nat,
{
    let by_variant = compare_u64(variant_position(a), variant_position(b));
    if by_variant != Comparison::Equal {
        return by_variant;
    }
    match (a, b) {
        (Predicate::Guard(x), Predicate::Guard(y)) => {
            let by_kind = compare_u64(kind_position(x.kind), kind_position(y.kind));
            if by_kind != Comparison::Equal {
                by_kind
            } else {
                compare_u64(x.path, y.path)
            }
        },
        (Predicate::Not(x), Predicate::Not(y)) => compare_predicates(&**x, &**y),
        (Predicate::And(xs), Predicate::And(ys)) => compare_predicate_lists(xs, ys),
        (Predicate::Or(xs), Predicate::Or(ys)) => compare_predicate_lists(xs, ys),
        (Predicate::Approximate(x), Predicate::Approximate(y)) => compare_u64(*x, *y),
        _ => Comparison::Equal,
    }
}

/// Compare two predicate lists lexicographically.
fn compare_predicate_lists(xs: &Vec<Predicate>, ys: &Vec<Predicate>) -> (c: Comparison)
    ensures
        c == compare_seqs(views(xs@), views(ys@), 0),
    decreases xs, 0nat,
{
    let ghost vx = views(xs@);
    let ghost vy = views(ys@);
    let mut i: usize = 0;
    while i < xs.len() && i < ys.len()
        invariant
            i <= xs@.len(),
            i <= ys@.len(),
            vx == views(xs@),
            vy == views(ys@),
            compare_seqs(vx, vy, 0) == compare_seqs(vx, vy, i as nat),
        decreases xs@.len() - i,
    {
        let here = compare_predicates(&xs[i], &ys[i]);
        if here != Comparison::Equal {
            return here;
        }
        i += 1;
    }
    if i < xs.len() {
        Comparison::Greater
    } else if i < ys.len() {
        Comparison::Less
    } else {
        Comparison::Equal
    }
}

/// `s` with `x` placed after every disjunct ordered before it, unless an
/// equal disjunct is already there.
pub open spec fn insert_disjunct(s: Seq<PredicateView>, x: PredicateView) -> Seq<PredicateView>
    decreases s.len(),
{
    if s.len() == 0 {
        seq![x]
    } else {
        let c = compare_views(s.last(), x);
        if c == Comparison::Equal {
            s
        } else if c == Comparison::Less {
            s.push(x)
        } else {
            insert_disjunct(s.drop_last(), x).push(s.last())
        }
    }
}

/// The conditions other than `False`, in order and without repeats.
pub open spec fn disjuncts(conditions: Seq<PredicateView>) -> Seq<PredicateView>
    decreases conditions.len(),
{
    if conditions.len() == 0 {
        Seq::empty()
    } else {
        let rest = disjuncts(conditions.drop_last());
        if conditions.last() == PredicateView::False {
            rest
        } else {
            insert_disjunct(rest, conditions.last())
        }
    }
}

/// The condition that any of `conditions` holds: `True` when one of them
/// is, otherwise the disjunction of the others than `False` (`False` when
/// none is left, the one disjunct when one is).
pub open spec fn any_view(conditions: Seq<PredicateView>) -> PredicateView {
    if conditions.contains(PredicateView::True) {
        PredicateView::True
    } else {
        let d = disjuncts(conditions);
        if d.len() == 0 {
            PredicateView::False
        } else if d.len() == 1 {
            d[0]
        } else {
            PredicateView::Or(d)
        }
    }
}

/// Inserting at the position a backward scan stops at is
/// [`insert_disjunct`].
proof fn lemma_insert_disjunct_at(s: Seq<PredicateView>, x: PredicateView, p: int)
    requires
        0 <= p <= s.len(),
        forall|i: int| p <= i < s.len() ==> compare_views(#[trigger] s[i], x) == Comparison::Greater,
        p > 0 ==> compare_views(s[p - 1], x) != Comparison::Greater,
    ensures
        insert_disjunct(s, x) == if p > 0 && compare_views(s[p - 1], x) == Comparison::Equal {
            s
        } else {
            s.take(p).push(x) + s.skip(p)
        },
    decreases s.len(),
{
    if s.len() == p {
        assert(s.take(p) =~= s);
        assert(s.take(p).push(x) + s.skip(p) =~= s.push(x));
    } else {
        let d = s.drop_last();
        lemma_insert_disjunct_at(d, x, p);
        assert(d.take(p) =~= s.take(p));
        if p > 0 && compare_views(s[p - 1], x) == Comparison::Equal {
            assert(d.push(s.last()) =~= s);
        } else {
            assert((d.take(p).push(x) + d.skip(p)).push(s.last()) =~= s.take(p).push(x) + s.skip(p));
        }
    }
}

/// Put `x` into the ordered disjuncts `list` unless an equal one is there.
fn insert_into(list: &mut Vec<Predicate>, x: Predicate)
    ensures
        views(final(list)@) == insert_disjunct(views(old(list)@), x@),
{
    let ghost before = views(list@);
    let mut pos = list.len();
    while pos > 0 && compare_predicates(&list[pos - 1], &x) == Comparison::Greater
        invariant
            pos <= list@.len(),
            before == views(list@),
            forall|i: int| pos <= i < list@.len() ==> compare_views(#[trigger] before[i], x@) == Comparison::Greater,
        decreases pos,
    {
        pos -= 1;
    }
    proof {
        lemma_insert_disjunct_at(before, x@, pos as int);
    }
    if pos > 0 && compare_predicates(&list[pos - 1], &x) == Comparison::Equal {
        return;
    }
    list.insert(pos, x);
    proof {
        assert(views(list@) =~= before.take(pos as int).push(x@) + before.skip(pos as int));
    }
}

/// Whether some condition is `True`.
fn any_true(conditions: &Vec<PathCondition>) -> (found: bool)
    ensures
        found == views(conditions@).contains(PredicateView::True),
{
    let mut i: usize = 0;
    while i < conditions.len()
        invariant
            i <= conditions@.len(),
            forall|j: int| 0 <= j < i ==> (#[trigger] conditions@[j])@ != PredicateView::True,
        decreases conditions@.len() - i,
    {
        if conditions[i].is_true() {
            proof {
                assert(views(conditions@)[i as int] == PredicateView::True);
            }
            return true;
        }
        i += 1;
    }
    proof {
        if views(conditions@).contains(PredicateView::True) {
            let j = choose|j: int| 0 <= j < views(conditions@).len() && views(conditions@)[j] == PredicateView::True;
            assert(conditions@[j]@ == PredicateView::True);
        }
    }
    false
}

/// The condition that any of `conditions` holds: `True` when one of them
/// is; otherwise the conditions other than `False`, ordered and without
/// repeats, as one disjunction (`False` when none is left, the condition
/// itself when one is).
pub fn any_conditions(conditions: Vec<PathCondition>) -> (any: PathCondition)
    ensures
        any@ == any_view(views(conditions@)),
{
    if any_true(&conditions) {
        return Predicate::True;
    }
    let ghost all = views(conditions@);
    let mut kept: Vec<Predicate> = Vec::new();
    let mut i: usize = 0;
    while i < conditions.len()
        invariant
            i <= conditions@.len(),
            all == views(conditions@),
            views(kept@) == disjuncts(all.take(i as int)),
        decreases conditions@.len() - i,
    {
        proof {
            assert(all.take(i + 1).drop_last() =~= all.take(i as int));
            assert(all.take(i + 1).last() == conditions@[i as int]@);
        }
        if !conditions[i].is_false() {
            insert_into(&mut kept, conditions[i].duplicate());
        }
        i += 1;
    }
    proof {
        assert(all.take(conditions@.len() as int) =~= all);
    }
    if kept.len() == 0 {
        Predicate::False
    } else if kept.len() == 1 {
        let only = kept.pop().unwrap();
        only
    } else {
        Predicate::Or(kept)
    }
}

impl LoopControl {
    /// The condition under which the loop body is left early: any break
    /// or continue.
    pub fn exit_condition(&self) -> (condition: PathCondition)
        ensures
            condition@ == any_view(exit_conditions(outcomes_view(self.breaks@) + outcomes_view(self.continues@))),
    {
        let mut conditions: Vec<PathCondition> = Vec::new();
        push_conditions(&mut conditions, &self.breaks);
        push_conditions(&mut conditions, &self.continues);
        proof {
            assert(exit_conditions(outcomes_view(self.breaks@) + outcomes_view(self.continues@)) =~= exit_conditions(
                outcomes_view(self.breaks@),
            ) + exit_conditions(outcomes_view(self.continues@)));
        }
        any_conditions(conditions)
    }

    /// The condition under which the loop is left by a break.
    pub fn break_condition(&self) -> (condition: PathCondition)
        ensures
            condition@ == any_view(exit_conditions(outcomes_view(self.breaks@))),
    {
        let mut conditions: Vec<PathCondition> = Vec::new();
        push_conditions(&mut conditions, &self.breaks);
        proof {
            assert(views(conditions@) =~= exit_conditions(outcomes_view(self.breaks@)));
        }
        any_conditions(conditions)
    }
}

/// The conditions of loop exits, in order.
pub open spec fn exit_conditions(exits: Seq<(PredicateView, u64)>) -> Seq<PredicateView> {
    exits.map_values(|e: (PredicateView, u64)| e.0)
}

/// Append copies of the exits' conditions to `conditions`.
fn push_conditions(conditions: &mut Vec<PathCondition>, exits: &Vec<ControlOutcome>)
    ensures
        views(final(conditions)@) == views(old(conditions)@) + exit_conditions(outcomes_view(exits@)),
{
    let ghost start = views(conditions@);
    let mut i: usize = 0;
    while i < exits.len()
        invariant
            i <= exits@.len(),
            views(conditions@) == start + exit_conditions(outcomes_view(exits@.take(i as int))),
        decreases exits@.len() - i,
    {
        let ghost before = conditions@;
        conditions.push(exits[i].condition.duplicate());
        proof {
            assert(conditions@.drop_last() =~= before);
            assert(exit_conditions(outcomes_view(exits@.take(i + 1))) =~= exit_conditions(
                outcomes_view(exits@.take(i as int)),
            ).push(exits@[i as int].condition@));
            assert(views(conditions@) =~= start + exit_conditions(outcomes_view(exits@.take(i + 1))));
        }
        i += 1;
    }
    proof {
        assert(exits@.take(exits@.len() as int) =~= exits@);
    }
}

/// Predicates compare equal exactly when they are equal.
pub proof fn lemma_compare_equal(a: PredicateView, b: PredicateView)
    ensures
        (compare_views(a, b) == Comparison::Equal) == (a == b),
    decreases a, 1nat, 0nat,
{
    match (a, b) {
        (PredicateView::Guard(x), PredicateView::Guard(y)) => {
            if compare_views(a, b) == Comparison::Equal {
                assert(x.kind == y.kind);
            }
        },
        (PredicateView::Not(x), PredicateView::Not(y)) => {
            lemma_compare_equal(*x, *y);
        },
        (PredicateView::And(xs), PredicateView::And(ys)) => {
            lemma_compare_seqs_equal(xs, ys, 0);
            if compare_views(a, b) == Comparison::Equal {
                assert(xs =~= ys);
            }
        },
        (PredicateView::Or(xs), PredicateView::Or(ys)) => {
            lemma_compare_seqs_equal(xs, ys, 0);
            if compare_views(a, b) == Comparison::Equal {
                assert(xs =~= ys);
            }
        },
        _ => {},
    }
}

/// Sequences compare equal from `i` exactly when they have the same
/// length and the same elements from `i` on.
pub proof fn lemma_compare_seqs_equal(xs: Seq<PredicateView>, ys: Seq<PredicateView>, i: nat)
    requires
        i <= xs.len(),
        i <= ys.len(),
    ensures
        (compare_seqs(xs, ys, i) == Comparison::Equal) == (xs.len() == ys.len() && forall|j: int|
            i <= j < xs.len() ==> xs[j] == ys[j]),
    decreases xs, 0nat, xs.len() - i,
{
    if i < xs.len() && i < ys.len() {
        lemma_compare_equal(xs[i as int], ys[i as int]);
        lemma_compare_seqs_equal(xs, ys, (i + 1) as nat);
        if compare_seqs(xs, ys, i) == Comparison::Equal {
            assert forall|j: int| i <= j < xs.len() implies xs[j] == ys[j] by {
                if j > i {
                }
            }
        }
    }
}

/// A comparison seen from the other side.
pub open spec fn flip(c: Comparison) -> Comparison {
    match c {
        Comparison::Less => Comparison::Greater,
        Comparison::Equal => Comparison::Equal,
        Comparison::Greater => Comparison::Less,
    }
}

/// Comparing the other way round gives the opposite answer.
pub proof fn lemma_compare_flip(a: PredicateView, b: PredicateView)
    ensures
        compare_views(b, a) == flip(compare_views(a, b)),
    decreases a, 1nat, 0nat,
{
    match (a, b) {
        (PredicateView::Not(x), PredicateView::Not(y)) => {
            lemma_compare_flip(*x, *y);
        },
        (PredicateView::And(xs), PredicateView::And(ys)) => {
            lemma_compare_seqs_flip(xs, ys, 0);
        },
        (PredicateView::Or(xs), PredicateView::Or(ys)) => {
            lemma_compare_seqs_flip(xs, ys, 0);
        },
        _ => {},
    }
}

/// Comparing sequences the other way round gives the opposite answer.
pub proof fn lemma_compare_seqs_flip(xs: Seq<PredicateView>, ys: Seq<PredicateView>, i: nat)
    ensures
        compare_seqs(ys, xs, i) == flip(compare_seqs(xs, ys, i)),
    decreases xs, 0nat, xs.len() - i,
{
    if i < xs.len() && i < ys.len() {
        lemma_compare_flip(xs[i as int], ys[i as int]);
        lemma_compare_seqs_flip(xs, ys, (i + 1) as nat);
    }
}

/// Ordering before is transitive.
pub proof fn lemma_compare_transitive(a: PredicateView, b: PredicateView, c: PredicateView)
    requires
        compare_views(a, b) == Comparison::Less,
        compare_views(b, c) == Comparison::Less,
    ensures
        compare_views(a, c) == Comparison::Less,
    decreases a, 1nat, 0nat,
{
    if variant_rank(a) == variant_rank(b) && variant_rank(b) == variant_rank(c) {
        match (a, b, c) {
            (PredicateView::Not(x), PredicateView::Not(y), PredicateView::Not(z)) => {
                lemma_compare_transitive(*x, *y, *z);
            },
            (PredicateView::And(xs), PredicateView::And(ys), PredicateView::And(zs)) => {
                lemma_compare_seqs_transitive(xs, ys, zs, 0);
            },
            (PredicateView::Or(xs), PredicateView::Or(ys), PredicateView::Or(zs)) => {
                lemma_compare_seqs_transitive(xs, ys, zs, 0);
            },
            _ => {},
        }
    }
}

/// Lexicographic ordering before is transitive.
pub proof fn lemma_compare_seqs_transitive(
    xs: Seq<PredicateView>,
    ys: Seq<PredicateView>,
    zs: Seq<PredicateView>,
    i: nat,
)
    requires
        compare_seqs(xs, ys, i) == Comparison::Less,
        compare_seqs(ys, zs, i) == Comparison::Less,
    ensures
        compare_seqs(xs, zs, i) == Comparison::Less,
    decreases xs, 0nat, xs.len() - i,
{
    if i < xs.len() && i < ys.len() && i < zs.len() {
        let x = xs[i as int];
        let y = ys[i as int];
        let z = zs[i as int];
        lemma_compare_equal(x, y);
        lemma_compare_equal(y, z);
        let first = compare_views(x, y);
        let second = compare_views(y, z);
        if first == Comparison::Less && second == Comparison::Less {
            lemma_compare_transitive(x, y, z);
        } else if first == Comparison::Equal && second == Comparison::Equal {
            lemma_compare_seqs_transitive(xs, ys, zs, (i + 1) as nat);
        }
    }
}

/// What inserting a disjunct keeps and adds: every old disjunct stays,
/// `x` is there afterwards, and nothing else is added.
proof fn lemma_insert_disjunct_members(s: Seq<PredicateView>, x: PredicateView)
    ensures
        forall|y: PredicateView| #[trigger] s.contains(y) ==> insert_disjunct(s, x).contains(y),
        insert_disjunct(s, x).contains(x),
        forall|y: PredicateView| #[trigger] insert_disjunct(s, x).contains(y) ==> s.contains(y) || y == x,
    decreases s.len(),
{
    broadcast use vstd::seq_lib::group_seq_properties;
    if s.len() > 0 {
        let c = compare_views(s.last(), x);
        lemma_compare_equal(s.last(), x);
        if c == Comparison::Greater {
            let d = s.drop_last();
            lemma_insert_disjunct_members(d, x);
            assert(s == d.push(s.last()));
            assert forall|y: PredicateView| #[trigger] s.contains(y) implies insert_disjunct(s, x).contains(y) by {
                if y != s.last() {
                    assert(d.contains(y));
                }
            }
        } else if c == Comparison::Equal {
            assert(s.contains(s.last()));
        }
    }
}

/// The disjuncts are exactly the conditions other than `False`.
pub proof fn lemma_disjuncts_members(conditions: Seq<PredicateView>)
    ensures
        forall|y: PredicateView| #[trigger] disjuncts(conditions).contains(y) <==> (conditions.contains(y) && y
            != PredicateView::False),
    decreases conditions.len(),
{
    broadcast use vstd::seq_lib::group_seq_properties;
    if conditions.len() > 0 {
        let d = conditions.drop_last();
        lemma_disjuncts_members(d);
        let last = conditions.last();
        assert(conditions == d.push(last));
        if last != PredicateView::False {
            lemma_insert_disjunct_members(disjuncts(d), last);
        }
    }
}

/// Any of several conditions is `False` exactly when every one of them is.
pub proof fn lemma_any_false_iff_all_false(conditions: Seq<PredicateView>)
    ensures
        (any_view(conditions) == PredicateView::False) == (forall|i: int|
            0 <= i < conditions.len() ==> conditions[i] == PredicateView::False),
{
    broadcast use vstd::seq_lib::group_seq_properties;
    lemma_disjuncts_members(conditions);
    let d = disjuncts(conditions);
    if forall|i: int| 0 <= i < conditions.len() ==> conditions[i] == PredicateView::False {
        if d.len() > 0 {
            assert(d.contains(d[0]));
        }
        assert(!conditions.contains(PredicateView::True));
    } else {
        let i = choose|i: int| 0 <= i < conditions.len() && conditions[i] != PredicateView::False;
        assert(conditions.contains(conditions[i]));
        assert(d.contains(conditions[i]));
        if d.len() == 1 {
            assert(d.contains(d[0]));
        }
    }
}

/// `xs` ordered, repeats removed (disjunct by disjunct).
pub open spec fn sorted_unique(xs: Seq<PredicateView>) -> Seq<PredicateView>
    decreases xs.len(),
{
    if xs.len() == 0 {
        Seq::empty()
    } else {
        insert_disjunct(sorted_unique(xs.drop_last()), xs.last())
    }
}

/// The disjunction of two conditions: `True` absorbs, `False` is the
/// identity, equal conditions are one; disjunctions merge their
/// alternatives, ordered and without repeats; other pairs become a
/// two-way disjunction in order.
pub open spec fn or_view(left: PredicateView, right: PredicateView) -> PredicateView {
    if left == PredicateView::True || right == PredicateView::True {
        PredicateView::True
    } else if left == PredicateView::False {
        right
    } else if right == PredicateView::False {
        left
    } else if left == right {
        left
    } else {
        match (left, right) {
            (PredicateView::Or(l), PredicateView::Or(r)) => PredicateView::Or(sorted_unique(l + r)),
            (PredicateView::Or(alternatives), other) => PredicateView::Or(sorted_unique(alternatives.push(other))),
            (other, PredicateView::Or(alternatives)) => PredicateView::Or(sorted_unique(alternatives.push(other))),
            _ => PredicateView::Or(seq![left, right]),
        }
    }
}

/// Insert copies of `parts` one by one into the ordered list `out`.
fn insert_all(out: &mut Vec<Predicate>, parts: &Vec<Predicate>)
    ensures
        views(final(out)@) == sorted_unique_from(views(old(out)@), views(parts@)),
{
    let ghost start = views(out@);
    let mut i: usize = 0;
    while i < parts.len()
        invariant
            i <= parts@.len(),
            views(out@) == sorted_unique_from(start, views(parts@).take(i as int)),
        decreases parts@.len() - i,
    {
        insert_into(out, parts[i].duplicate());
        proof {
            assert(views(parts@).take(i + 1).drop_last() =~= views(parts@).take(i as int));
            assert(views(parts@).take(i + 1).last() == parts@[i as int]@);
        }
        i += 1;
    }
    proof {
        assert(views(parts@).take(parts@.len() as int) =~= views(parts@));
    }
}

/// `acc` with the members of `xs` inserted one by one.
pub open spec fn sorted_unique_from(acc: Seq<PredicateView>, xs: Seq<PredicateView>) -> Seq<PredicateView>
    decreases xs.len(),
{
    if xs.len() == 0 {
        acc
    } else {
        insert_disjunct(sorted_unique_from(acc, xs.drop_last()), xs.last())
    }
}

/// Inserting into nothing is [`sorted_unique`].
proof fn lemma_sorted_unique_from_empty(xs: Seq<PredicateView>)
    ensures
        sorted_unique_from(Seq::empty(), xs) == sorted_unique(xs),
    decreases xs.len(),
{
    if xs.len() > 0 {
        lemma_sorted_unique_from_empty(xs.drop_last());
    }
}

/// Inserting `a + b` is inserting `a`, then `b`.
proof fn lemma_sorted_unique_from_concat(acc: Seq<PredicateView>, a: Seq<PredicateView>, b: Seq<PredicateView>)
    ensures
        sorted_unique_from(acc, a + b) == sorted_unique_from(sorted_unique_from(acc, a), b),
    decreases b.len(),
{
    if b.len() == 0 {
        assert(a + b =~= a);
    } else {
        lemma_sorted_unique_from_concat(acc, a, b.drop_last());
        assert((a + b).drop_last() =~= a + b.drop_last());
        assert((a + b).last() == b.last());
    }
}

/// The disjunction of two conditions (see [`or_view`]).
pub fn or_predicates(left: PathCondition, right: PathCondition) -> (either: PathCondition)
    ensures
        either@ == or_view(left@, right@),
{
    if left.is_true() || right.is_true() {
        return Predicate::True;
    }
    if left.is_false() {
        return right;
    }
    if right.is_false() {
        return left;
    }
    if crate::conditions::predicates_equal(&left, &right) {
        return left;
    }
    match (left, right) {
        (Predicate::Or(l), Predicate::Or(r)) => {
            let mut out: Vec<Predicate> = Vec::new();
            insert_all(&mut out, &l);
            insert_all(&mut out, &r);
            proof {
                lemma_sorted_unique_from_concat(Seq::empty(), views(l@), views(r@));
                lemma_sorted_unique_from_empty(views(l@) + views(r@));
                assert(views(l@ + r@) =~= views(l@) + views(r@));
            }
            Predicate::Or(out)
        },
        (Predicate::Or(alternatives), other) => {
            let ghost other_view = other@;
            let mut out: Vec<Predicate> = Vec::new();
            insert_all(&mut out, &alternatives);
            insert_into(&mut out, other);
            proof {
                lemma_sorted_unique_from_empty(views(alternatives@));
                lemma_sorted_unique_from_empty(views(alternatives@).push(other_view));
                assert(views(alternatives@).push(other_view).drop_last() =~= views(alternatives@));
            }
            Predicate::Or(out)
        },
        (other, Predicate::Or(alternatives)) => {
            let ghost other_view = other@;
            let mut out: Vec<Predicate> = Vec::new();
            insert_all(&mut out, &alternatives);
            insert_into(&mut out, other);
            proof {
                lemma_sorted_unique_from_empty(views(alternatives@));
                lemma_sorted_unique_from_empty(views(alternatives@).push(other_view));
                assert(views(alternatives@).push(other_view).drop_last() =~= views(alternatives@));
            }
            Predicate::Or(out)
        },
        (left, right) => {
            let ghost pair = seq![left@, right@];
            let mut parts: Vec<Predicate> = Vec::new();
            parts.push(left);
            parts.push(right);
            proof {
                assert(views(parts@) =~= pair);
            }
            Predicate::Or(parts)
        },
    }
}

// ---------------------------------------------------------------------
// Condition chains as one branch
// ---------------------------------------------------------------------

/// The conjuncts one condition contributes to a branch: none for `True`,
/// the parts of an `And`, otherwise the condition itself.
pub open spec fn branch_conjuncts(condition: PredicateView) -> Seq<PredicateView> {
    match condition {
        PredicateView::True => Seq::empty(),
        PredicateView::And(parts) => parts,
        other => seq![other],
    }
}

/// The conjuncts of a condition chain, condition after condition.
pub open spec fn branch_parts(conditions: Seq<PredicateView>) -> Seq<PredicateView>
    decreases conditions.len(),
{
    if conditions.len() == 0 {
        Seq::empty()
    } else {
        branch_parts(conditions.drop_last()) + branch_conjuncts(conditions.last())
    }
}

/// The root-to-leaf condition chain as one predicate branch: the conjuncts
/// of every condition (`True` contributing none, an `And` its parts, any
/// other condition itself), as an ordered set.
pub fn condition_branch(conditions: &[PathCondition]) -> (branch: Vec<Predicate>)
    ensures
        views(branch@) == sorted_unique(branch_parts(views(conditions@))),
{
    let ghost all = views(conditions@);
    let mut branch: Vec<Predicate> = Vec::new();
    let mut i: usize = 0;
    while i < conditions.len()
        invariant
            i <= conditions@.len(),
            all == views(conditions@),
            views(branch@) == sorted_unique_from(Seq::empty(), branch_parts(all.take(i as int))),
        decreases conditions@.len() - i,
    {
        let ghost done = branch_parts(all.take(i as int));
        let ghost acc = views(branch@);
        proof {
            assert(all.take(i + 1).drop_last() =~= all.take(i as int));
            assert(all.take(i + 1).last() == conditions@[i as int]@);
            lemma_sorted_unique_from_concat(Seq::empty(), done, branch_conjuncts(conditions@[i as int]@));
        }
        match &conditions[i] {
            Predicate::True => {
                assert(done + Seq::<PredicateView>::empty() =~= done);
            },
            Predicate::And(parts) => {
                insert_all(&mut branch, parts);
            },
            other => {
                let copy = other.duplicate();
                let ghost x = copy@;
                insert_into(&mut branch, copy);
                proof {
                    assert(seq![x].drop_last() =~= Seq::<PredicateView>::empty());
                    assert(sorted_unique_from(acc, Seq::<PredicateView>::empty()) == acc);
                    assert(seq![x].last() == x);
                    assert(sorted_unique_from(acc, seq![x]) == insert_disjunct(acc, x));
                }
            },
        }
        i += 1;
    }
    proof {
        assert(all.take(conditions@.len() as int) =~= all);
        lemma_sorted_unique_from_empty(branch_parts(all));
    }
    branch
}

/// Ordering without repeats keeps exactly the members.
proof fn lemma_sorted_unique_members(xs: Seq<PredicateView>)
    ensures
        forall|y: PredicateView| #[trigger] sorted_unique(xs).contains(y) <==> xs.contains(y),
    decreases xs.len(),
{
    broadcast use vstd::seq_lib::group_seq_properties;
    if xs.len() > 0 {
        let d = xs.drop_last();
        lemma_sorted_unique_members(d);
        lemma_insert_disjunct_members(sorted_unique(d), xs.last());
        assert(xs == d.push(xs.last()));
    }
}

/// The conjuncts of a chain are those of its conditions.
proof fn lemma_branch_parts_members(conditions: Seq<PredicateView>)
    ensures
        forall|y: PredicateView| #[trigger] branch_parts(conditions).contains(y) <==> exists|i: int|
            0 <= i < conditions.len() && (#[trigger] branch_conjuncts(conditions[i])).contains(y),
    decreases conditions.len(),
{
    if conditions.len() > 0 {
        let d = conditions.drop_last();
        lemma_branch_parts_members(d);
        let last = conditions.len() - 1;
        let head = branch_parts(d);
        let tail = branch_conjuncts(conditions[last]);
        assert(branch_parts(conditions) == head + tail);
        assert forall|y: PredicateView| #[trigger] branch_parts(conditions).contains(y) <==> exists|i: int|
            0 <= i < conditions.len() && (#[trigger] branch_conjuncts(conditions[i])).contains(y) by {
            if branch_parts(conditions).contains(y) {
                let k = choose|k: int| 0 <= k < (head + tail).len() && (head + tail)[k] == y;
                if k < head.len() {
                    assert(head[k] == y);
                    assert(head.contains(y));
                    let i = choose|i: int| 0 <= i < d.len() && (#[trigger] branch_conjuncts(d[i])).contains(y);
                    assert(conditions[i] == d[i]);
                } else {
                    assert(tail[k - head.len()] == y);
                    assert(tail.contains(y));
                }
            }
            if exists|i: int| 0 <= i < conditions.len() && (#[trigger] branch_conjuncts(conditions[i])).contains(y) {
                let i = choose|i: int| 0 <= i < conditions.len() && (#[trigger] branch_conjuncts(conditions[i])).contains(y);
                if i < last {
                    assert(d[i] == conditions[i]);
                    assert(branch_conjuncts(d[i]).contains(y));
                    assert(head.contains(y));
                    let k = choose|k: int| 0 <= k < head.len() && head[k] == y;
                    assert((head + tail)[k] == y);
                } else {
                    let k = choose|k: int| 0 <= k < tail.len() && tail[k] == y;
                    assert((head + tail)[head.len() + k] == y);
                }
            }
        }
    }
}

/// A condition chain's branch holds exactly the conjuncts of its
/// conditions: nothing of a `True`, every part of an `And`, and every
/// other condition itself.
pub proof fn lemma_condition_branch_members(conditions: Seq<PredicateView>)
    ensures
        forall|y: PredicateView| #[trigger] sorted_unique(branch_parts(conditions)).contains(y) <==> exists|i: int|
            0 <= i < conditions.len() && (#[trigger] branch_conjuncts(conditions[i])).contains(y),
{
    lemma_sorted_unique_members(branch_parts(conditions));
    lemma_branch_parts_members(conditions);
}

// ---------------------------------------------------------------------
// The canonical order of disjuncts
// ---------------------------------------------------------------------

/// Each element is ordered before every later one.
pub open spec fn strictly_increasing(s: Seq<PredicateView>) -> bool {
    forall|i: int, j: int| 0 <= i < j < s.len() ==> compare_views(#[trigger] s[i], #[trigger] s[j]) == Comparison::Less
}

/// Inserting into a strictly increasing sequence keeps it so.
proof fn lemma_insert_disjunct_increasing(s: Seq<PredicateView>, x: PredicateView)
    requires
        strictly_increasing(s),
    ensures
        strictly_increasing(insert_disjunct(s, x)),
    decreases s.len(),
{
    broadcast use vstd::seq_lib::group_seq_properties;
    if s.len() > 0 {
        let last = s.last();
        let c = compare_views(last, x);
        if c == Comparison::Less {
            let t = s.push(x);
            assert forall|i: int, j: int| 0 <= i < j < t.len() implies compare_views(#[trigger] t[i], #[trigger] t[j])
                == Comparison::Less by {
                if j == s.len() && i < s.len() - 1 {
                    lemma_compare_transitive(s[i], last, x);
                }
            }
        } else if c == Comparison::Greater {
            let d = s.drop_last();
            assert(strictly_increasing(d));
            lemma_insert_disjunct_increasing(d, x);
            lemma_insert_disjunct_members(d, x);
            lemma_compare_flip(last, x);
            let inner = insert_disjunct(d, x);
            let t = inner.push(last);
            assert forall|i: int, j: int| 0 <= i < j < t.len() implies compare_views(#[trigger] t[i], #[trigger] t[j])
                == Comparison::Less by {
                if j == inner.len() {
                    assert(inner.contains(inner[i]));
                    if inner[i] != x {
                        let k = choose|k: int| 0 <= k < d.len() && d[k] == inner[i];
                        assert(s[k] == d[k]);
                        assert(compare_views(s[k], s[s.len() - 1]) == Comparison::Less);
                    }
                }
            }
        }
    }
}

/// The disjuncts come out strictly increasing.
pub proof fn lemma_disjuncts_increasing(conditions: Seq<PredicateView>)
    ensures
        strictly_increasing(disjuncts(conditions)),
    decreases conditions.len(),
{
    if conditions.len() > 0 {
        lemma_disjuncts_increasing(conditions.drop_last());
        if conditions.last() != PredicateView::False {
            lemma_insert_disjunct_increasing(disjuncts(conditions.drop_last()), conditions.last());
        }
    }
}

/// Ordering without repeats comes out strictly increasing.
pub proof fn lemma_sorted_unique_increasing(xs: Seq<PredicateView>)
    ensures
        strictly_increasing(sorted_unique(xs)),
    decreases xs.len(),
{
    if xs.len() > 0 {
        lemma_sorted_unique_increasing(xs.drop_last());
        lemma_insert_disjunct_increasing(sorted_unique(xs.drop_last()), xs.last());
    }
}

/// Two strictly increasing sequences with the same members are equal.
proof fn lemma_increasing_unique(a: Seq<PredicateView>, b: Seq<PredicateView>)
    requires
        strictly_increasing(a),
        strictly_increasing(b),
        forall|y: PredicateView| a.contains(y) <==> b.contains(y),
    ensures
        a == b,
    decreases a.len() + b.len(),
{
    broadcast use vstd::seq_lib::group_seq_properties;
    if a.len() == 0 {
        if b.len() > 0 {
            assert(b.contains(b[0]));
        }
        assert(a =~= b);
    } else if b.len() == 0 {
        assert(a.contains(a[0]));
    } else {
        let ma = a.last();
        let mb = b.last();
        assert(a.contains(ma));
        assert(b.contains(mb));
        let ka = choose|k: int| 0 <= k < b.len() && b[k] == ma;
        let kb = choose|k: int| 0 <= k < a.len() && a[k] == mb;
        lemma_compare_equal(ma, mb);
        lemma_compare_flip(ma, mb);
        if ka < b.len() - 1 {
            assert(compare_views(b[ka], b[b.len() - 1]) == Comparison::Less);
            if kb < a.len() - 1 {
                assert(compare_views(a[kb], a[a.len() - 1]) == Comparison::Less);
            }
        }
        if kb < a.len() - 1 {
            assert(compare_views(a[kb], a[a.len() - 1]) == Comparison::Less);
        }
        assert(ma == mb);
        let da = a.drop_last();
        let db = b.drop_last();
        assert(strictly_increasing(da));
        assert(strictly_increasing(db));
        assert forall|y: PredicateView| da.contains(y) <==> db.contains(y) by {
            if da.contains(y) {
                let k = choose|k: int| 0 <= k < da.len() && da[k] == y;
                assert(a[k] == y);
                assert(compare_views(a[k], a[a.len() - 1]) == Comparison::Less);
                lemma_compare_equal(y, ma);
                assert(a.contains(y));
                assert(b.contains(y));
                let kk = choose|kk: int| 0 <= kk < b.len() && b[kk] == y;
                assert(kk != b.len() - 1);
                assert(db[kk] == y);
            }
            if db.contains(y) {
                let k = choose|k: int| 0 <= k < db.len() && db[k] == y;
                assert(b[k] == y);
                assert(compare_views(b[k], b[b.len() - 1]) == Comparison::Less);
                lemma_compare_equal(y, mb);
                assert(b.contains(y));
                assert(a.contains(y));
                let kk = choose|kk: int| 0 <= kk < a.len() && a[kk] == y;
                assert(kk != a.len() - 1);
                assert(da[kk] == y);
            }
        }
        lemma_increasing_unique(da, db);
        assert(a =~= da.push(ma));
        assert(b =~= db.push(mb));
    }
}

/// The condition that any of several conditions holds depends only on
/// which conditions there are: neither their order nor their repeats
/// change it, because the disjuncts are put in one canonical order.
pub proof fn lemma_any_view_canonical(c1: Seq<PredicateView>, c2: Seq<PredicateView>)
    requires
        forall|y: PredicateView| c1.contains(y) <==> c2.contains(y),
    ensures
        disjuncts(c1) == disjuncts(c2),
        any_view(c1) == any_view(c2),
{
    lemma_disjuncts_increasing(c1);
    lemma_disjuncts_increasing(c2);
    lemma_disjuncts_members(c1);
    lemma_disjuncts_members(c2);
    lemma_increasing_unique(disjuncts(c1), disjuncts(c2));
    assert(c1.contains(PredicateView::True) == c2.contains(PredicateView::True));
}

/// Ordering without repeats depends only on which members there are.
pub proof fn lemma_sorted_unique_canonical(xs: Seq<PredicateView>, ys: Seq<PredicateView>)
    requires
        forall|y: PredicateView| xs.contains(y) <==> ys.contains(y),
    ensures
        sorted_unique(xs) == sorted_unique(ys),
{
    lemma_sorted_unique_increasing(xs);
    lemma_sorted_unique_increasing(ys);
    lemma_sorted_unique_members(xs);
    lemma_sorted_unique_members(ys);
    lemma_increasing_unique(sorted_unique(xs), sorted_unique(ys));
}

} // verus!
