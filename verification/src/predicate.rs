//! The guard-condition lattice that fragment arms carry.
//!
//! A [`Predicate`] is a tree of atomic guards combined with `Not`, `And`
//! and `Or`. Atomic guards name the `.Values` path they test by an interned
//! path id, and say which kind of test they are (truthiness, a `range`
//! subject, a `default` fallback, ...). Contracts speak of the view
//! [`PredicateView`], whose conjunctions and disjunctions are sequences.

use vstd::prelude::*;

verus! {

/// What an atomic guard tests about its path.
#[derive(Clone, Copy, Debug, PartialEq, Eq, Structural)]
pub enum GuardKind {
    /// The path renders truthy.
    Truthy,
    /// The path renders falsy.
    Not,
    /// The path is replaced by a `default` fallback when empty.
    Default,
    /// The path is the subject of an enclosing `range`.
    Range,
    /// Any other test (equality, emptiness, type checks, ...).
    Other,
}

/// An atomic guard: a test of one kind on one interned `.Values` path.
#[derive(Clone, Copy, Debug, PartialEq, Eq, Structural)]
pub struct Guard {
    pub kind: GuardKind,
    pub path: u64,
}

/// A path condition.
#[derive(Debug)]
pub enum Predicate {
    True,
    False,
    Guard(Guard),
    Not(Box<Predicate>),
    And(Vec<Predicate>),
    Or(Vec<Predicate>),
    /// A condition that could only be decoded approximately; the id names
    /// its source text.
    Approximate(u64),
}

/// The mathematical value of a [`Predicate`].
pub enum PredicateView {
    True,
    False,
    Guard(Guard),
    Not(Box<PredicateView>),
    And(Seq<PredicateView>),
    Or(Seq<PredicateView>),
    Approximate(u64),
}

/// The views of a sequence of predicates.
pub open spec fn views(parts: Seq<Predicate>) -> Seq<PredicateView>
    decreases parts,
{
    if parts.len() == 0 {
        Seq::empty()
    } else {
        views(parts.subrange(0, parts.len() - 1)).push(parts[parts.len() - 1].view())
    }
}

impl View for Predicate {
    type V = PredicateView;

    open spec fn view(&self) -> PredicateView
        decreases self,
    {
        match self {
            Predicate::True => PredicateView::True,
            Predicate::False => PredicateView::False,
            Predicate::Guard(g) => PredicateView::Guard(*g),
            Predicate::Not(inner) => PredicateView::Not(Box::new((**inner).view())),
            Predicate::And(parts) => PredicateView::And(views(parts@)),
            Predicate::Or(parts) => PredicateView::Or(views(parts@)),
            Predicate::Approximate(id) => PredicateView::Approximate(*id),
        }
    }
}

/// The conjunction of `parts`: `True` when empty, the part itself when
/// single, otherwise an `And`.
pub open spec fn all_view(parts: Seq<PredicateView>) -> PredicateView {
    if parts.len() == 0 {
        PredicateView::True
    } else if parts.len() == 1 {
        parts[0]
    } else {
        PredicateView::And(parts)
    }
}

/// The top-level conjuncts of a condition: none for `True`, the parts of
/// an `And`, the condition itself otherwise.
pub open spec fn conjuncts(p: PredicateView) -> Seq<PredicateView> {
    match p {
        PredicateView::True => Seq::empty(),
        PredicateView::And(parts) => parts,
        _ => seq![p],
    }
}

/// `acc` with `x` appended unless already present.
pub open spec fn push_unique(acc: Seq<PredicateView>, x: PredicateView) -> Seq<PredicateView> {
    if acc.contains(x) {
        acc
    } else {
        acc.push(x)
    }
}

/// `acc` followed by the members of `xs` not seen before, first occurrence
/// kept.
pub open spec fn extend_unique(acc: Seq<PredicateView>, xs: Seq<PredicateView>) -> Seq<
    PredicateView,
>
    decreases xs.len(),
{
    if xs.len() == 0 {
        acc
    } else {
        push_unique(extend_unique(acc, xs.drop_last()), xs.last())
    }
}

/// `xs` without repeated members, first occurrences kept in order.
pub open spec fn dedup(xs: Seq<PredicateView>) -> Seq<PredicateView> {
    extend_unique(Seq::empty(), xs)
}

/// The conjuncts of `outer ∧ inner` in root-to-leaf order.
pub open spec fn and_parts(outer: PredicateView, inner: PredicateView) -> Seq<PredicateView> {
    dedup(conjuncts(outer) + conjuncts(inner))
}

/// `outer ∧ inner`, flattened one level and without repeated conjuncts.
pub open spec fn and_view(outer: PredicateView, inner: PredicateView) -> PredicateView {
    all_view(and_parts(outer, inner))
}

/// Whether the condition mentions a `range` guard anywhere.
pub open spec fn has_range(p: PredicateView) -> bool
    decreases p,
{
    match p {
        PredicateView::Guard(g) => g.kind == GuardKind::Range,
        PredicateView::Not(inner) => has_range(*inner),
        PredicateView::And(parts) => exists|i: int| 0 <= i < parts.len() && has_range(#[trigger] parts[i]),
        PredicateView::Or(parts) => exists|i: int| 0 <= i < parts.len() && has_range(#[trigger] parts[i]),
        _ => false,
    }
}

/// `views` is the element-wise view.
pub proof fn lemma_views_shape(s: Seq<Predicate>)
    ensures
        views(s).len() == s.len(),
        forall|i: int| 0 <= i < s.len() ==> #[trigger] views(s)[i] == s[i]@,
    decreases s.len(),
{
    if s.len() == 0 {
        assert(views(s) == Seq::<PredicateView>::empty());
    } else {
        let prefix = s.subrange(0, s.len() - 1);
        lemma_views_shape(prefix);
        assert(views(s) == views(prefix).push(s[s.len() - 1]@));
        assert forall|i: int| 0 <= i < s.len() implies #[trigger] views(s)[i] == s[i]@ by {
            if i < s.len() - 1 {
                assert(prefix[i] == s[i]);
            }
        }
    }
}

pub broadcast proof fn lemma_views_len(s: Seq<Predicate>)
    ensures
        #[trigger] views(s).len() == s.len(),
{
    lemma_views_shape(s);
}

pub broadcast proof fn lemma_views_index(s: Seq<Predicate>, i: int)
    requires
        0 <= i < s.len(),
    ensures
        #[trigger] views(s)[i] == s[i]@,
{
    lemma_views_shape(s);
}

pub broadcast group group_views {
    lemma_views_len,
    lemma_views_index,
}

/// Membership in `extend_unique(acc, xs)` is membership in `acc` or `xs`.
pub proof fn lemma_extend_unique_members(acc: Seq<PredicateView>, xs: Seq<PredicateView>, x: PredicateView)
    ensures
        extend_unique(acc, xs).contains(x) <==> (acc.contains(x) || xs.contains(x)),
    decreases xs.len(),
{
    if xs.len() > 0 {
        let prefix = xs.drop_last();
        lemma_extend_unique_members(acc, prefix, x);
        if xs.contains(x) && !prefix.contains(x) {
            let k = choose|k: int| 0 <= k < xs.len() && xs[k] == x;
            if k < xs.len() - 1 {
                assert(prefix[k] == x);
            }
            assert(xs.last() == x);
        }
        if prefix.contains(x) {
            let k = choose|k: int| 0 <= k < prefix.len() && prefix[k] == x;
            assert(xs[k] == x);
        }
        let e = extend_unique(acc, prefix);
        if !e.contains(xs.last()) {
            assert(e.push(xs.last())[e.len() as int] == xs.last());
            if e.contains(x) {
                let k = choose|k: int| 0 <= k < e.len() && e[k] == x;
                assert(e.push(xs.last())[k] == x);
            }
            if e.push(xs.last()).contains(x) && x != xs.last() {
                let k = choose|k: int| 0 <= k < e.len() + 1 && e.push(xs.last())[k] == x;
                assert(e[k] == x);
            }
        }
    }
}

/// `extend_unique` never introduces a repeated member.
pub proof fn lemma_extend_unique_no_duplicates(acc: Seq<PredicateView>, xs: Seq<PredicateView>)
    requires
        acc.no_duplicates(),
    ensures
        extend_unique(acc, xs).no_duplicates(),
    decreases xs.len(),
{
    if xs.len() > 0 {
        lemma_extend_unique_no_duplicates(acc, xs.drop_last());
        let e = extend_unique(acc, xs.drop_last());
        if !e.contains(xs.last()) {
            let f = e.push(xs.last());
            assert forall|i: int, j: int| 0 <= i < f.len() && 0 <= j < f.len() && i != j implies f[i] != f[j] by {
                if i < e.len() && j < e.len() {
                } else if i == e.len() {
                    assert(f[j] == e[j]);
                } else {
                    assert(f[i] == e[i]);
                }
            }
        }
    }
}

/// Extending by members already present changes nothing.
pub proof fn lemma_extend_unique_absorbs(acc: Seq<PredicateView>, xs: Seq<PredicateView>)
    requires
        forall|i: int| 0 <= i < xs.len() ==> acc.contains(#[trigger] xs[i]),
    ensures
        extend_unique(acc, xs) == acc,
    decreases xs.len(),
{
    if xs.len() > 0 {
        let prefix = xs.drop_last();
        assert forall|i: int| 0 <= i < prefix.len() implies acc.contains(#[trigger] prefix[i]) by {
            assert(prefix[i] == xs[i]);
        }
        lemma_extend_unique_absorbs(acc, prefix);
        assert(acc.contains(xs[xs.len() - 1]));
    }
}

/// Conjoining onto `True` only normalizes: the result has the condition's
/// own conjuncts, repeats removed.
pub proof fn lemma_and_true_left(c: PredicateView)
    ensures
        and_view(PredicateView::True, c) == all_view(dedup(conjuncts(c))),
{
    assert(conjuncts(PredicateView::True) + conjuncts(c) =~= conjuncts(c));
}

/// Conjoining `True` onto a condition only normalizes it.
pub proof fn lemma_and_true_right(c: PredicateView)
    ensures
        and_view(c, PredicateView::True) == all_view(dedup(conjuncts(c))),
{
    assert(conjuncts(c) + conjuncts(PredicateView::True) =~= conjuncts(c));
}

/// The conjuncts of `outer ∧ inner` are exactly those of `outer` and of
/// `inner`, each once.
pub proof fn lemma_and_parts_members(outer: PredicateView, inner: PredicateView, x: PredicateView)
    ensures
        and_parts(outer, inner).contains(x) <==> (conjuncts(outer).contains(x) || conjuncts(
            inner,
        ).contains(x)),
        and_parts(outer, inner).no_duplicates(),
{
    let a = conjuncts(outer);
    let b = conjuncts(inner);
    lemma_extend_unique_members(Seq::empty(), a + b, x);
    lemma_extend_unique_no_duplicates(Seq::empty(), a + b);
    if (a + b).contains(x) {
        let k = choose|k: int| 0 <= k < (a + b).len() && (a + b)[k] == x;
        if k < a.len() {
            assert(a[k] == x);
        } else {
            assert(b[k - a.len()] == x);
        }
    }
    if a.contains(x) {
        let k = choose|k: int| 0 <= k < a.len() && a[k] == x;
        assert((a + b)[k] == x);
    }
    if b.contains(x) {
        let k = choose|k: int| 0 <= k < b.len() && b[k] == x;
        assert((a + b)[a.len() + k] == x);
    }
}

/// Removing repeats from a sequence without repeats changes nothing.
pub proof fn lemma_dedup_unique(xs: Seq<PredicateView>)
    requires
        xs.no_duplicates(),
    ensures
        dedup(xs) == xs,
    decreases xs.len(),
{
    if xs.len() > 0 {
        let d = xs.drop_last();
        assert(d.no_duplicates());
        lemma_dedup_unique(d);
        assert(!d.contains(xs.last())) by {
            if d.contains(xs.last()) {
                let k = choose|k: int| 0 <= k < d.len() && d[k] == xs.last();
                assert(xs[k] == xs[xs.len() - 1]);
            }
        }
        assert(d.push(xs.last()) =~= xs);
    }
}

/// `True` is the identity of conjunction on conditions in normal form: any
/// condition but an `And`, and an `And` of at least two distinct conjuncts.
pub proof fn lemma_and_true_identity(c: PredicateView)
    requires
        c matches PredicateView::And(parts) ==> parts.len() >= 2 && parts.no_duplicates(),
    ensures
        and_view(PredicateView::True, c) == c,
        and_view(c, PredicateView::True) == c,
{
    lemma_and_true_left(c);
    lemma_and_true_right(c);
    let parts = conjuncts(c);
    assert(parts.no_duplicates());
    lemma_dedup_unique(parts);
}

/// Conjoining a condition with itself adds nothing.
pub proof fn lemma_and_idempotent(c: PredicateView)
    ensures
        and_view(c, c) == and_view(c, PredicateView::True),
{
    let a = conjuncts(c);
    crate::predicate::lemma_extend_unique_concat_spec(a);
    assert(a + conjuncts(PredicateView::True) =~= a);
}

/// `dedup(a + a) == dedup(a)`.
pub proof fn lemma_extend_unique_concat_spec(a: Seq<PredicateView>)
    ensures
        dedup(a + a) == dedup(a),
{
    lemma_extend_unique_concat_general(Seq::empty(), a, a);
    assert forall|i: int| 0 <= i < a.len() implies dedup(a).contains(#[trigger] a[i]) by {
        lemma_extend_unique_members(Seq::empty(), a, a[i]);
        assert(a.contains(a[i]));
    }
    lemma_extend_unique_absorbs(dedup(a), a);
}

pub proof fn lemma_extend_unique_concat_general(acc: Seq<PredicateView>, a: Seq<PredicateView>, b: Seq<PredicateView>)
    ensures
        extend_unique(extend_unique(acc, a), b) == extend_unique(acc, a + b),
    decreases b.len(),
{
    if b.len() == 0 {
        assert(a + b =~= a);
    } else {
        lemma_extend_unique_concat_general(acc, a, b.drop_last());
        assert((a + b).drop_last() =~= a + b.drop_last());
        assert((a + b).last() == b.last());
    }
}

} // verus!
