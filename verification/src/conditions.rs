//! Exec operations on path conditions: copying, comparison, conjunction.

use vstd::prelude::*;

use crate::predicate::{GuardKind, Predicate, PredicateView, all_view, group_views, has_range, views};

verus! {

broadcast use group_views;

impl Predicate {
    /// A copy with the same view.
    pub fn duplicate(&self) -> (copy: Predicate)
        ensures
            copy@ == self@,
        decreases self,
    {
            match self {
            Predicate::True => Predicate::True,
            Predicate::False => Predicate::False,
            Predicate::Guard(g) => Predicate::Guard(*g),
            Predicate::Not(inner) => Predicate::Not(Box::new((**inner).duplicate())),
            Predicate::And(parts) => {
                let copied = duplicate_all(parts);
                Predicate::And(copied)
            },
            Predicate::Or(parts) => {
                let copied = duplicate_all(parts);
                Predicate::Or(copied)
            },
            Predicate::Approximate(id) => Predicate::Approximate(*id),
        }
    }

    /// The conjunction of `parts` (`True` when empty, the single part
    /// itself, otherwise `And`).
    pub fn all(parts: Vec<Predicate>) -> (conjunction: Predicate)
        ensures
            conjunction@ == all_view(views(parts@)),
    {
            if parts.len() == 0 {
            Predicate::True
        } else if parts.len() == 1 {
            let mut parts = parts;
            let only = parts.pop().unwrap();
            only
        } else {
            Predicate::And(parts)
        }
    }

    /// Whether this is `True`.
    pub fn is_true(&self) -> (answer: bool)
        ensures
            answer == (self@ == PredicateView::True),
    {
        match self {
            Predicate::True => true,
            _ => false,
        }
    }

    /// Whether this is `False`.
    pub fn is_false(&self) -> (answer: bool)
        ensures
            answer == (self@ == PredicateView::False),
    {
        match self {
            Predicate::False => true,
            _ => false,
        }
    }
}

/// Copies of every predicate in `parts`, in order.
pub fn duplicate_all(parts: &Vec<Predicate>) -> (copies: Vec<Predicate>)
    ensures
        views(copies@) == views(parts@),
    decreases parts,
{
    let mut copies: Vec<Predicate> = Vec::new();
    let mut i: usize = 0;
    while i < parts.len()
        invariant
            i <= parts.len(),
            copies@.len() == i,
            forall|j: int| 0 <= j < i ==> (#[trigger] copies@[j])@ == parts@[j]@,
        decreases parts.len() - i,
    {
        copies.push(parts[i].duplicate());
        i += 1;
    }
    assert(views(copies@) =~= views(parts@));
    copies
}

/// Whether two predicates have the same view.
pub fn predicates_equal(a: &Predicate, b: &Predicate) -> (same: bool)
    ensures
        same == (a@ == b@),
    decreases a,
{
    match (a, b) {
        (Predicate::True, Predicate::True) => true,
        (Predicate::False, Predicate::False) => true,
        (Predicate::Guard(x), Predicate::Guard(y)) => *x == *y,
        (Predicate::Not(x), Predicate::Not(y)) => {
            let same = predicates_equal(&**x, &**y);
            proof {
                if (**x)@ == (**y)@ {
                    assert(a@ == b@);
                }
                if a@ == b@ {
                    assert(PredicateView::Not(Box::new((**x)@)) == PredicateView::Not(Box::new((**y)@)));
                }
            }
            same
        },
        (Predicate::And(x), Predicate::And(y)) => {
            let same = sequences_equal(x, y);
            proof {
                if same {
                    assert(views(x@) =~= views(y@));
                }
            }
            same
        },
        (Predicate::Or(x), Predicate::Or(y)) => {
            let same = sequences_equal(x, y);
            proof {
                if same {
                    assert(views(x@) =~= views(y@));
                }
            }
            same
        },
        (Predicate::Approximate(x), Predicate::Approximate(y)) => *x == *y,
        _ => false,
    }
}

/// Whether two predicate lists have the same views, element by element.
pub fn sequences_equal(x: &Vec<Predicate>, y: &Vec<Predicate>) -> (same: bool)
    ensures
        same == (views(x@) == views(y@)),
    decreases x,
{
    if x.len() != y.len() {
        proof {
            if views(x@) == views(y@) {
                assert(views(x@).len() == views(y@).len());
            }
        }
        return false;
    }
    let mut i: usize = 0;
    while i < x.len()
        invariant
            i <= x.len(),
            x.len() == y.len(),
            forall|j: int| 0 <= j < i ==> (#[trigger] x@[j])@ == y@[j]@,
        decreases x.len() - i,
    {
        if !predicates_equal(&x[i], &y[i]) {
            proof {
                if views(x@) == views(y@) {
                    assert(views(x@)[i as int] == views(y@)[i as int]);
                }
            }
            return false;
        }
        i += 1;
    }
    assert(views(x@) =~= views(y@));
    true
}

/// Whether `p` occurs (by view) in `parts`.
pub fn contains_predicate(parts: &Vec<Predicate>, p: &Predicate) -> (found: bool)
    ensures
        found == views(parts@).contains(p@),
{
    let mut i: usize = 0;
    while i < parts.len()
        invariant
            i <= parts.len(),
            forall|j: int| 0 <= j < i ==> (#[trigger] parts@[j])@ != p@,
        decreases parts.len() - i,
    {
        if predicates_equal(&parts[i], p) {
            assert(views(parts@)[i as int] == p@);
            return true;
        }
        i += 1;
    }
    proof {
        if views(parts@).contains(p@) {
            let k = choose|k: int| 0 <= k < views(parts@).len() && views(parts@)[k] == p@;
            assert(parts@[k]@ == p@);
        }
    }
    false
}

/// Whether the condition mentions a `range` guard anywhere.
pub fn predicate_has_range(predicate: &Predicate) -> (found: bool)
    ensures
        found == has_range(predicate@),
    decreases predicate,
{
    match predicate {
        Predicate::Guard(guard) => {
            let found = match guard.kind {
                GuardKind::Range => true,
                _ => false,
            };
            assert(found == has_range(predicate@));
            found
        },
        Predicate::Not(inner) => {
            let found = predicate_has_range(&**inner);
            assert(found == has_range(predicate@));
            found
        },
        Predicate::And(parts) => {
            let found = any_has_range(parts);
            assert(predicate@ == PredicateView::And(views(parts@)));
            assert(has_range(PredicateView::And(views(parts@))) == exists|i: int|
                0 <= i < views(parts@).len() && has_range(#[trigger] views(parts@)[i]));
            assert(found == has_range(predicate@));
            found
        },
        Predicate::Or(parts) => {
            let found = any_has_range(parts);
            assert(predicate@ == PredicateView::Or(views(parts@)));
            assert(has_range(PredicateView::Or(views(parts@))) == exists|i: int|
                0 <= i < views(parts@).len() && has_range(#[trigger] views(parts@)[i]));
            assert(found == has_range(predicate@));
            found
        },
        Predicate::True => {
            assert(!has_range(predicate@));
            false
        },
        Predicate::False => {
            assert(!has_range(predicate@));
            false
        },
        Predicate::Approximate(_) => {
            assert(!has_range(predicate@));
            false
        },
    }
}

/// Whether some predicate of `parts` mentions a `range` guard.
fn any_has_range(parts: &Vec<Predicate>) -> (found: bool)
    ensures
        found == exists|i: int| 0 <= i < views(parts@).len() && has_range(#[trigger] views(parts@)[i]),
    decreases parts,
{
    let mut i: usize = 0;
    while i < parts.len()
        invariant
            i <= parts.len(),
            forall|j: int| 0 <= j < i ==> !has_range(#[trigger] parts@[j]@),
        decreases parts.len() - i,
    {
        if predicate_has_range(&parts[i]) {
            assert(has_range(views(parts@)[i as int]));
            return true;
        }
        i += 1;
    }
    proof {
        if exists|k: int| 0 <= k < views(parts@).len() && has_range(#[trigger] views(parts@)[k]) {
            let k = choose|k: int| 0 <= k < views(parts@).len() && has_range(#[trigger] views(parts@)[k]);
            assert(views(parts@)[k] == parts@[k]@);
        }
    }
    false
}

/// The conjuncts of a condition with nested conjunctions flattened: none
/// for `True`, the members' conjuncts for an `And`, else the condition.
pub open spec fn flat_conjuncts(p: PredicateView) -> Set<PredicateView>
    decreases p, 1nat,
{
    match p {
        PredicateView::True => Set::empty(),
        PredicateView::And(parts) => flat_conjuncts_of(parts),
        _ => set![p],
    }
}

/// The flattened conjuncts of every member of `parts`.
pub open spec fn flat_conjuncts_of(parts: Seq<PredicateView>) -> Set<PredicateView>
    decreases parts, 0nat,
{
    if parts.len() == 0 {
        Set::empty()
    } else {
        flat_conjuncts_of(parts.drop_last()).union(flat_conjuncts(parts.last()))
    }
}

/// Append the flattened conjuncts of `predicate` to `out`.
fn collect_conjuncts(predicate: &Predicate, out: &mut Vec<Predicate>)
    ensures
        views(final(out)@).to_set() == views(old(out)@).to_set().union(flat_conjuncts(predicate@)),
    decreases predicate, 1nat,
{
    match predicate {
        Predicate::True => {
            assert(views(out@).to_set() =~= views(out@).to_set().union(Set::empty()));
        },
        Predicate::And(parts) => {
            collect_all_conjuncts(parts, out);
        },
        _ => {
            let ghost before = out@;
            out.push(predicate.duplicate());
            proof {
                assert(views(out@) =~= views(before).push(predicate@));
                views(before).lemma_push_to_set_commute(predicate@);
                assert(views(out@).to_set() =~= views(before).to_set().union(set![predicate@]));
            }
        },
    }
}

/// Append the flattened conjuncts of every member of `parts` to `out`.
fn collect_all_conjuncts(parts: &Vec<Predicate>, out: &mut Vec<Predicate>)
    ensures
        views(final(out)@).to_set() == views(old(out)@).to_set().union(flat_conjuncts_of(views(parts@))),
    decreases parts, 0nat,
{
    let ghost start = views(out@).to_set();
    let mut i: usize = 0;
    while i < parts.len()
        invariant
            i <= parts@.len(),
            views(out@).to_set() == start.union(flat_conjuncts_of(views(parts@).take(i as int))),
        decreases parts@.len() - i,
    {
        collect_conjuncts(&parts[i], out);
        proof {
            assert(views(parts@).take(i + 1).drop_last() =~= views(parts@).take(i as int));
            assert(views(parts@).take(i + 1).last() == parts@[i as int]@);
            assert(views(out@).to_set() =~= start.union(flat_conjuncts_of(views(parts@).take(i + 1))));
        }
        i += 1;
    }
    proof {
        assert(views(parts@).take(parts@.len() as int) =~= views(parts@));
    }
}

/// Whether every flattened conjunct of `subset` is one of `superset`'s.
pub fn predicate_is_conjunctive_subset(subset: &Predicate, superset: &Predicate) -> (included: bool)
    ensures
        included == flat_conjuncts(subset@).subset_of(flat_conjuncts(superset@)),
{
    let mut subset_conjuncts: Vec<Predicate> = Vec::new();
    let mut superset_conjuncts: Vec<Predicate> = Vec::new();
    collect_conjuncts(subset, &mut subset_conjuncts);
    collect_conjuncts(superset, &mut superset_conjuncts);
    proof {
        assert(views(Seq::<Predicate>::empty()).to_set() =~= Set::<PredicateView>::empty());
        assert(views(subset_conjuncts@).to_set() =~= flat_conjuncts(subset@));
        assert(views(superset_conjuncts@).to_set() =~= flat_conjuncts(superset@));
    }
    let mut i: usize = 0;
    while i < subset_conjuncts.len()
        invariant
            i <= subset_conjuncts@.len(),
            views(subset_conjuncts@).to_set() == flat_conjuncts(subset@),
            views(superset_conjuncts@).to_set() == flat_conjuncts(superset@),
            forall|j: int| 0 <= j < i ==> flat_conjuncts(superset@).contains(#[trigger] views(subset_conjuncts@)[j]),
        decreases subset_conjuncts@.len() - i,
    {
        if !contains_predicate(&superset_conjuncts, &subset_conjuncts[i]) {
            proof {
                assert(views(subset_conjuncts@)[i as int] == subset_conjuncts@[i as int]@);
                assert(views(subset_conjuncts@).contains(subset_conjuncts@[i as int]@));
                assert(!flat_conjuncts(superset@).contains(subset_conjuncts@[i as int]@));
            }
            return false;
        }
        i += 1;
    }
    proof {
        assert forall|x: PredicateView| flat_conjuncts(subset@).contains(x) implies flat_conjuncts(superset@).contains(x) by {
            assert(views(subset_conjuncts@).contains(x));
            let j = choose|j: int| 0 <= j < views(subset_conjuncts@).len() && views(subset_conjuncts@)[j] == x;
        }
    }
    true
}

} // verus!
