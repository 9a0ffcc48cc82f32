//! The `Guarded<AbstractFragment>` domain: an abstract rendered document.
//!
//! A fragment is the shape a template *renders*, with template control flow
//! kept as guard trees: every alternative of a [`Guarded`] value carries the
//! [`PathCondition`] under which that arm materializes, and root-to-leaf
//! condition chains replace ambient guard stacks.

use std::rc::Rc;

use vstd::prelude::*;

use crate::conditions::contains_predicate;
use crate::predicate::{
    Predicate, PredicateView, and_view, conjuncts, extend_unique, group_views, lemma_extend_unique_concat_general, push_unique, views,
};

verus! {

broadcast use group_views;

/// How a `.Values` path renders at a position.
#[derive(Clone, Copy, Debug, PartialEq, Eq, Structural)]
pub enum ValueKind {
    /// A whole scalar.
    Scalar,
    /// Part of a scalar's text.
    PartialScalar,
    /// A YAML fragment (mapping or sequence).
    Fragment,
    /// A serialized or otherwise transformed rendering that constrains
    /// nothing about the raw value.
    Serialized,
}

/// A manifest resource a render site belongs to.
#[derive(Clone, Debug, PartialEq, Eq)]
pub struct ResourceRef {
    pub kind: String,
    pub name: String,
}

/// A source span that justifies a contract row.
#[derive(Clone, Debug, PartialEq, Eq)]
pub struct ContractProvenance {
    pub source_path: String,
    pub start: usize,
    pub end: usize,
}

/// Render-site facts resolved at evaluation time: the manifest resource
/// whose span contains the site, that resource span's path prefix, and the
/// site's source provenance. Shared by every row one hole produces.
#[derive(Clone, Debug, Default, PartialEq, Eq)]
pub struct SiteFacts {
    /// The resource containing this site, when its document declares one.
    pub resource: Option<ResourceRef>,
    /// Path segments the containing resource span strips from emitted paths.
    pub path_prefix: Vec<String>,
    /// The site's own source span, when the template has a source path.
    pub provenance: Option<ContractProvenance>,
}

/// The condition under which a guarded arm materializes.
pub type PathCondition = Predicate;

/// A guarded alternative set: each arm materializes when its condition
/// holds. Several arms are candidates preserved side by side; mutual
/// exclusivity is expressed only by contradictory conditions.
#[derive(Debug)]
pub struct Guarded<T> {
    /// The guarded arms in document order.
    pub arms: Vec<(PathCondition, T)>,
}

/// One node of the abstract rendered document.
#[derive(Debug)]
pub enum AbstractFragment {
    /// A YAML mapping.
    Mapping(Mapping),
    /// A YAML sequence.
    Sequence(Sequence),
    /// A scalar value, possibly partial (literal text interleaved with
    /// template holes).
    Scalar(AbstractString),
    /// A `.Values` path rendered whole at this position.
    Splice(Splice),
    /// A position whose rendered content is unknown; `taint` names the
    /// `.Values` paths that flowed into it.
    Opaque(Opaque),
}

/// A YAML mapping: entries in first-seen document order.
#[derive(Debug, Default)]
pub struct Mapping {
    pub entries: Vec<MappingEntry>,
}

/// One mapping entry: the key and its guarded value alternatives.
#[derive(Debug)]
pub struct MappingEntry {
    pub key: EntryKey,
    pub value: Guarded<AbstractFragment>,
}

/// A mapping key: literal text, or a templated key whose text is only
/// partially known.
#[derive(Debug)]
pub enum EntryKey {
    /// A plain literal key.
    Literal(String),
    /// A templated key.
    Dynamic(AbstractString),
}

/// A YAML sequence: guarded items in document order.
#[derive(Debug, Default)]
pub struct Sequence {
    pub items: Vec<Guarded<AbstractFragment>>,
}

/// A scalar modeled as ordered parts: literal text runs, whole-value
/// splices, and opaque taint.
#[derive(Debug, Default)]
pub struct AbstractString {
    /// The scalar parts in render order.
    pub parts: Vec<StringPart>,
    /// The scalar is a render-suppressed text blob (a block scalar body).
    pub suppressed: bool,
}

/// One part of an [`AbstractString`].
#[derive(Debug)]
pub enum StringPart {
    /// Literal text alternatives: a set, kept in increasing order (see
    /// [`ordered_strings`]). A singleton is plain source text.
    Text(Vec<String>),
    /// A `.Values` path rendered into the scalar.
    Splice(Splice),
    /// Unknown rendered text attributed to these `.Values` paths.
    Taint(TaintPart),
}

/// Unknown rendered text inside a scalar with its influencing paths.
#[derive(Debug, Default)]
pub struct TaintPart {
    /// The `.Values` paths that flowed into the unknown text: a set, kept in
    /// increasing order (see [`ordered_strings`]).
    pub paths: Vec<String>,
    /// Whether the text is a JSON serialization of a known structure.
    pub json_serialized: bool,
    /// The render site the taint was observed at.
    pub site: Option<Rc<SiteFacts>>,
    /// Helper-body source sites the taint was derived through.
    pub provenance: Vec<ContractProvenance>,
}

/// A `.Values` path rendered at a fragment position.
#[derive(Debug)]
pub struct Splice {
    /// The dotted `.Values` path (never empty).
    pub values_path: String,
    /// Whether the path renders a whole scalar, part of one, or a fragment.
    pub kind: ValueKind,
    /// Render-site semantics carried with the splice.
    pub meta: SpliceMeta,
}

/// Splice metadata: defaultedness, encoding, and source provenance.
#[derive(Debug, Default)]
pub struct SpliceMeta {
    /// The site substitutes a fallback when the path is empty/nil.
    pub defaulted: bool,
    /// The rendered text is an encoded transform of the value.
    pub encoded: bool,
    /// The rendered text is a total stringification of the value.
    pub shape_erased: bool,
    /// The rendered fragment is the result of `toYaml`.
    pub yaml_serialized: bool,
    /// A string-consuming transform shaped the rendered text.
    pub string_contract: bool,
    /// The splice renders JSON text whose decoded value keeps the input.
    pub json_serialized: bool,
    /// The splice's identity was recovered through JSON decoding.
    pub json_decoded: bool,
    /// The shape-erasing transform is a plain stringification, which keeps
    /// the value's own text.
    pub stringified: bool,
    /// The splice renders a `range` key rather than a value.
    pub range_key: bool,
    /// The splice renders one segment of a split value.
    pub split_segment: bool,
    /// Helper-body source sites this splice was derived through.
    pub provenance: Vec<ContractProvenance>,
    /// The render site the splice materializes at.
    pub site: Option<Rc<SiteFacts>>,
}

/// An opaque fragment position: content unknown, influence preserved.
#[derive(Debug)]
pub struct Opaque {
    /// The `.Values` paths that flowed into the unknown content: a set, kept
    /// in increasing order (see [`ordered_strings`]).
    pub taint: Vec<String>,
    /// The hole kind the opaque content renders as.
    pub kind: ValueKind,
    /// The render site the opaque content was observed at.
    pub site: Option<Rc<SiteFacts>>,
    /// Helper-body source sites the content was derived through.
    pub provenance: Vec<ContractProvenance>,
}

// ---------------------------------------------------------------------
// Views
// ---------------------------------------------------------------------

/// One guarded arm as a value.
pub type ArmView = (PredicateView, FragmentView);

/// The mathematical value of an [`AbstractFragment`]: containers become
/// sequences and conditions their views; leaves stay as they are.
pub enum FragmentView {
    Mapping(Seq<(EntryKey, Seq<ArmView>)>),
    Sequence(Seq<Seq<ArmView>>),
    Scalar(Seq<StringPart>, bool),
    Splice(Splice),
    Opaque(Opaque),
}

pub open spec fn fragment_view(f: AbstractFragment) -> FragmentView
    decreases f,
{
    match f {
        AbstractFragment::Mapping(m) => FragmentView::Mapping(entries_view(m.entries@)),
        AbstractFragment::Sequence(s) => FragmentView::Sequence(items_view(s.items@)),
        AbstractFragment::Scalar(s) => FragmentView::Scalar(s.parts@, s.suppressed),
        AbstractFragment::Splice(s) => FragmentView::Splice(s),
        AbstractFragment::Opaque(o) => FragmentView::Opaque(o),
    }
}

pub open spec fn arms_view(s: Seq<(PathCondition, AbstractFragment)>) -> Seq<ArmView>
    decreases s,
{
    if s.len() == 0 {
        Seq::empty()
    } else {
        arms_view(s.subrange(0, s.len() - 1)).push(
            (s[s.len() - 1].0@, fragment_view(s[s.len() - 1].1)),
        )
    }
}

pub open spec fn entries_view(s: Seq<MappingEntry>) -> Seq<(EntryKey, Seq<ArmView>)>
    decreases s,
{
    if s.len() == 0 {
        Seq::empty()
    } else {
        entries_view(s.subrange(0, s.len() - 1)).push(
            (s[s.len() - 1].key, arms_view(s[s.len() - 1].value.arms@)),
        )
    }
}

pub open spec fn items_view(s: Seq<Guarded<AbstractFragment>>) -> Seq<Seq<ArmView>>
    decreases s,
{
    if s.len() == 0 {
        Seq::empty()
    } else {
        items_view(s.subrange(0, s.len() - 1)).push(arms_view(s[s.len() - 1].arms@))
    }
}

/// The view of a guarded fragment: its arms, conditions and nodes viewed.
pub open spec fn guarded_view(g: Guarded<AbstractFragment>) -> Seq<ArmView> {
    arms_view(g.arms@)
}

pub proof fn lemma_arms_view_push(s: Seq<(PathCondition, AbstractFragment)>, x: (PathCondition, AbstractFragment))
    ensures
        arms_view(s.push(x)) == arms_view(s).push((x.0@, fragment_view(x.1))),
{
    assert(s.push(x).subrange(0, s.len() as int) =~= s);
}

pub proof fn lemma_entries_view_push(s: Seq<MappingEntry>, x: MappingEntry)
    ensures
        entries_view(s.push(x)) == entries_view(s).push((x.key, arms_view(x.value.arms@))),
{
    assert(s.push(x).subrange(0, s.len() as int) =~= s);
}

pub proof fn lemma_items_view_push(s: Seq<Guarded<AbstractFragment>>, x: Guarded<AbstractFragment>)
    ensures
        items_view(s.push(x)) == items_view(s).push(arms_view(x.arms@)),
{
    assert(s.push(x).subrange(0, s.len() as int) =~= s);
}

pub proof fn lemma_arms_view_len(s: Seq<(PathCondition, AbstractFragment)>)
    ensures
        arms_view(s).len() == s.len(),
        forall|i: int| 0 <= i < s.len() ==> #[trigger] arms_view(s)[i] == (s[i].0@, fragment_view(s[i].1)),
    decreases s.len(),
{
    if s.len() > 0 {
        let prefix = s.subrange(0, s.len() - 1);
        lemma_arms_view_len(prefix);
        assert forall|i: int| 0 <= i < s.len() implies #[trigger] arms_view(s)[i] == (s[i].0@, fragment_view(s[i].1)) by {
            if i < s.len() - 1 {
                assert(prefix[i] == s[i]);
            }
        }
    }
}

pub proof fn lemma_entries_view_len(s: Seq<MappingEntry>)
    ensures
        entries_view(s).len() == s.len(),
        forall|i: int| 0 <= i < s.len() ==> #[trigger] entries_view(s)[i] == (s[i].key, arms_view(s[i].value.arms@)),
    decreases s.len(),
{
    if s.len() > 0 {
        let prefix = s.subrange(0, s.len() - 1);
        lemma_entries_view_len(prefix);
        assert forall|i: int| 0 <= i < s.len() implies #[trigger] entries_view(s)[i] == (s[i].key, arms_view(s[i].value.arms@)) by {
            if i < s.len() - 1 {
                assert(prefix[i] == s[i]);
            }
        }
    }
}

pub proof fn lemma_items_view_len(s: Seq<Guarded<AbstractFragment>>)
    ensures
        items_view(s).len() == s.len(),
        forall|i: int| 0 <= i < s.len() ==> #[trigger] items_view(s)[i] == arms_view(s[i].arms@),
    decreases s.len(),
{
    if s.len() > 0 {
        let prefix = s.subrange(0, s.len() - 1);
        lemma_items_view_len(prefix);
        assert forall|i: int| 0 <= i < s.len() implies #[trigger] items_view(s)[i] == arms_view(s[i].arms@) by {
            if i < s.len() - 1 {
                assert(prefix[i] == s[i]);
            }
        }
    }
}

/// Element-wise characterization: two sequences with element-wise equal
/// views have equal views.
pub proof fn lemma_entries_view_ext(a: Seq<MappingEntry>, b: Seq<(EntryKey, Seq<ArmView>)>)
    requires
        a.len() == b.len(),
        forall|i: int| 0 <= i < a.len() ==> (#[trigger] a[i]).key == b[i].0 && arms_view(a[i].value.arms@) == b[i].1,
    ensures
        entries_view(a) == b,
{
    lemma_entries_view_len(a);
    assert(entries_view(a) =~= b);
}

pub proof fn lemma_arms_view_concat(a: Seq<(PathCondition, AbstractFragment)>, b: Seq<(PathCondition, AbstractFragment)>)
    ensures
        arms_view(a + b) == arms_view(a) + arms_view(b),
    decreases b.len(),
{
    if b.len() == 0 {
        assert(a + b =~= a);
        assert(arms_view(a) + arms_view(b) =~= arms_view(a));
    } else {
        let b0 = b.subrange(0, b.len() - 1);
        let x = b[b.len() - 1];
        lemma_arms_view_concat(a, b0);
        assert(a + b =~= (a + b0).push(x));
        lemma_arms_view_push(a + b0, x);
        lemma_arms_view_push(b0, x);
        assert(b =~= b0.push(x));
        assert(arms_view(a) + arms_view(b0).push((x.0@, fragment_view(x.1))) =~= (arms_view(a)
            + arms_view(b0)).push((x.0@, fragment_view(x.1))));
    }
}

// ---------------------------------------------------------------------
// Guarded values
// ---------------------------------------------------------------------

impl<T> Default for Guarded<T> {
    /// A guarded value with no arms.
    fn default() -> (g: Self)
        ensures
            g.arms@.len() == 0,
    {
        Guarded { arms: Vec::new() }
    }
}

impl<T> Guarded<T> {
    /// A guarded value with no arms (nothing renders).
    pub fn empty() -> (g: Self)
        ensures
            g.arms@ == Seq::<(PathCondition, T)>::empty(),
    {
        Guarded { arms: Vec::new() }
    }

    /// A single unconditional arm.
    pub fn unconditional(node: T) -> (g: Self)
        ensures
            g.arms@.len() == 1,
            g.arms@[0].0@ == PredicateView::True,
            g.arms@[0].1 == node,
    {
        let mut arms = Vec::new();
        arms.push((Predicate::True, node));
        Guarded { arms }
    }

    /// A single arm under `condition`.
    pub fn conditional(condition: PathCondition, node: T) -> (g: Self)
        ensures
            g.arms@ == seq![(condition, node)],
    {
        let mut arms = Vec::new();
        arms.push((condition, node));
        Guarded { arms }
    }

    /// Whether this guarded value has no arms.
    pub fn is_empty(&self) -> (empty: bool)
        ensures
            empty == (self.arms@.len() == 0),
    {
        self.arms.len() == 0
    }

    /// Conjoin `condition` onto every arm (a control region dissolving into
    /// its container: each contribution keeps its own arm condition and
    /// gains the region's branch condition, outer first). A `True`
    /// condition leaves the arms untouched.
    pub fn guard_all(&mut self, condition: &PathCondition)
        ensures
            final(self).arms@.len() == old(self).arms@.len(),
            forall|i: int|
                0 <= i < old(self).arms@.len() ==> (#[trigger] final(self).arms@[i]).1 == old(
                    self,
                ).arms@[i].1,
            condition@ == PredicateView::True ==> final(self).arms@ == old(self).arms@,
            condition@ != PredicateView::True ==> forall|i: int|
                0 <= i < old(self).arms@.len() ==> (#[trigger] final(self).arms@[i]).0@
                    == and_view(condition@, old(self).arms@[i].0@),
    {
        if condition.is_true() {
            return ;
        }
        let ghost initial = self.arms@;
        let mut source: Vec<(PathCondition, T)> = Vec::new();
        std::mem::swap(&mut source, &mut self.arms);
        let mut out: Vec<(PathCondition, T)> = Vec::new();
        let ghost n = initial.len();
        while source.len() > 0
            invariant
                source@ == initial.subrange(n - source@.len(), n as int),
                source@.len() <= n,
                out@.len() == n - source@.len(),
                n == initial.len(),
                forall|i: int| 0 <= i < out@.len() ==> (#[trigger] out@[i]).1 == initial[i].1,
                forall|i: int|
                    0 <= i < out@.len() ==> (#[trigger] out@[i]).0@ == and_view(
                        condition@,
                        initial[i].0@,
                    ),
            decreases source@.len(),
        {
            let (arm_condition, node) = source.remove(0);
            let conjoined = and_conditions(condition.duplicate(), arm_condition);
            out.push((conjoined, node));
        }
        self.arms = out;
    }

    /// Append all arms of `other`.
    pub fn extend(&mut self, other: Self)
        ensures
            final(self).arms@ == old(self).arms@ + other.arms@,
    {
        let mut other = other;
        self.arms.append(&mut other.arms);
    }
}

/// Guarded arms with `condition` conjoined onto each (unchanged for a
/// `True` condition).
pub open spec fn guard_arms_view(condition: PredicateView, arms: Seq<ArmView>) -> Seq<ArmView> {
    if condition == PredicateView::True {
        arms
    } else {
        Seq::new(arms.len(), |i: int| (and_view(condition, arms[i].0), arms[i].1))
    }
}

/// The effect of [`Guarded::guard_all`] on a guarded fragment's view.
pub proof fn lemma_guard_all_view(
    before: Seq<(PathCondition, AbstractFragment)>,
    after: Seq<(PathCondition, AbstractFragment)>,
    condition: PredicateView,
)
    requires
        after.len() == before.len(),
        forall|i: int| 0 <= i < before.len() ==> (#[trigger] after[i]).1 == before[i].1,
        condition == PredicateView::True ==> after == before,
        condition != PredicateView::True ==> forall|i: int|
            0 <= i < before.len() ==> (#[trigger] after[i]).0@ == and_view(condition, before[i].0@),
    ensures
        arms_view(after) == guard_arms_view(condition, arms_view(before)),
{
    lemma_arms_view_len(before);
    lemma_arms_view_len(after);
    if condition != PredicateView::True {
        assert(arms_view(after) =~= guard_arms_view(condition, arms_view(before)));
    }
}

/// Conjoin two conditions, flattening one level of `And` and treating
/// `True` as identity; repeated conjuncts keep their first occurrence, and
/// the outer condition's conjuncts come first so lowered guard stacks read
/// root-to-leaf.
pub fn and_conditions(outer: PathCondition, inner: PathCondition) -> (conjunction: PathCondition)
    ensures
        conjunction@ == and_view(outer@, inner@),
{
    let ghost o = outer@;
    let ghost i = inner@;
    let mut parts: Vec<Predicate> = Vec::new();
    push_conjuncts(&mut parts, outer);
    push_conjuncts(&mut parts, inner);
    proof {
        lemma_extend_unique_concat_general(Seq::empty(), conjuncts(o), conjuncts(i));
    }
    Predicate::all(parts)
}

/// Append the conjuncts of `condition` not already present.
fn push_conjuncts(parts: &mut Vec<Predicate>, condition: Predicate)
    ensures
        views(final(parts)@) == extend_unique(views(old(parts)@), conjuncts(condition@)),
{
    match condition {
        Predicate::True => {
            assert(condition@ == PredicateView::True);
            assert(conjuncts(condition@) =~= Seq::<PredicateView>::empty());
            assert(extend_unique(views(parts@), Seq::<PredicateView>::empty()) == views(parts@));
            assert(extend_unique(views(parts@), conjuncts(condition@)) == views(parts@));
        },
        Predicate::And(inner_parts) => {
            let ghost start = views(parts@);
            let ghost xs = views(inner_parts@);
            assert(conjuncts(Predicate::And(inner_parts)@) == xs);
            let mut k: usize = 0;
            while k < inner_parts.len()
                invariant
                    k <= inner_parts@.len(),
                    xs == views(inner_parts@),
                    views(parts@) == extend_unique(start, xs.subrange(0, k as int)),
                decreases inner_parts@.len() - k,
            {
                let part = inner_parts[k].duplicate();
                proof {
                    assert(xs.subrange(0, k + 1).drop_last() =~= xs.subrange(0, k as int));
                    assert(xs.subrange(0, k + 1).last() == xs[k as int]);
                    assert(xs[k as int] == inner_parts@[k as int]@);
                }
                push_unique_predicate(parts, part);
                k += 1;
            }
            assert(xs.subrange(0, inner_parts@.len() as int) =~= xs);
        },
        other => {
            let ghost start = views(parts@);
            let ghost x = other@;
            proof {
                assert(conjuncts(other@) =~= seq![x]);
                assert(seq![x].drop_last() =~= Seq::<PredicateView>::empty());
                assert(extend_unique(start, Seq::<PredicateView>::empty()) == start);
                assert(extend_unique(start, seq![x]) == push_unique(start, x));
            }
            push_unique_predicate(parts, other);
        },
    }
}

/// Push `p` unless a predicate with the same view is present.
fn push_unique_predicate(parts: &mut Vec<Predicate>, p: Predicate)
    ensures
        views(final(parts)@) == push_unique(views(old(parts)@), p@),
{
    if !contains_predicate(parts, &p) {
        let ghost before = parts@;
        parts.push(p);
        assert(views(parts@) =~= views(before).push(p@));
    }
}

// ---------------------------------------------------------------------
// Scalars, taint, splices, opaque positions
// ---------------------------------------------------------------------

impl AbstractString {
    /// A scalar consisting of one literal text run.
    pub fn literal(text: String) -> (s: Self)
        ensures
            s.parts@.len() == 1,
            s.parts@[0] matches StringPart::Text(alternatives) && alternatives@ == seq![text],
            part_sets_ordered(s.parts@[0]),
            !s.suppressed,
    {
        let mut alternatives: Vec<String> = Vec::new();
        alternatives.push(text);
        let mut parts: Vec<StringPart> = Vec::new();
        parts.push(StringPart::Text(alternatives));
        AbstractString { parts, suppressed: false }
    }
}

/// Whether text `a` orders before text `b`, code point by code point, a
/// proper prefix first. On UTF-8 strings this is the byte order `String`
/// compares by.
pub open spec fn text_before(a: Seq<char>, b: Seq<char>) -> bool
    decreases a.len(),
{
    if a.len() == 0 {
        b.len() > 0
    } else if b.len() == 0 {
        false
    } else if a[0] != b[0] {
        a[0] < b[0]
    } else {
        text_before(a.drop_first(), b.drop_first())
    }
}

/// Whether a string list is a set in increasing order: each string orders
/// before every later one, so none occurs twice.
pub open spec fn ordered_strings(s: Seq<String>) -> bool {
    forall|i: int, j: int| 0 <= i < j < s.len() ==> text_before(#[trigger] s[i]@, #[trigger] s[j]@)
}

/// No text orders before itself.
pub proof fn lemma_text_before_irreflexive(a: Seq<char>)
    ensures
        !text_before(a, a),
    decreases a.len(),
{
    if a.len() > 0 {
        lemma_text_before_irreflexive(a.drop_first());
    }
}

/// Of two different texts, exactly one orders before the other.
pub proof fn lemma_text_before_total(a: Seq<char>, b: Seq<char>)
    ensures
        a != b ==> (text_before(a, b) || text_before(b, a)),
        !(text_before(a, b) && text_before(b, a)),
    decreases a.len(),
{
    if a.len() > 0 && b.len() > 0 && a[0] == b[0] {
        lemma_text_before_total(a.drop_first(), b.drop_first());
        if a != b {
            assert(a =~= seq![a[0]] + a.drop_first());
            assert(b =~= seq![b[0]] + b.drop_first());
        }
    } else if a.len() == 0 && b.len() == 0 {
        assert(a =~= b);
    }
}

/// Ordering before is transitive.
pub proof fn lemma_text_before_transitive(a: Seq<char>, b: Seq<char>, c: Seq<char>)
    requires
        text_before(a, b),
        text_before(b, c),
    ensures
        text_before(a, c),
    decreases a.len(),
{
    if a.len() > 0 && b.len() > 0 && c.len() > 0 && a[0] == b[0] && b[0] == c[0] {
        lemma_text_before_transitive(a.drop_first(), b.drop_first(), c.drop_first());
    }
}

/// Whether `a` orders before `b` (see [`text_before`]).
pub fn string_before(a: &String, b: &String) -> (before: bool)
    ensures
        before == text_before(a@, b@),
{
    let x = crate::text::chars_of(a.as_str());
    let y = crate::text::chars_of(b.as_str());
    let mut i: usize = 0;
    assert(x@.skip(0) =~= x@ && y@.skip(0) =~= y@);
    while i < x.len() && i < y.len() && x[i] == y[i]
        invariant
            x@ == a@,
            y@ == b@,
            i <= x@.len(),
            i <= y@.len(),
            text_before(a@, b@) == text_before(x@.skip(i as int), y@.skip(i as int)),
        decreases x@.len() - i,
    {
        proof {
            assert(x@.skip(i as int).drop_first() =~= x@.skip(i + 1));
            assert(y@.skip(i as int).drop_first() =~= y@.skip(i + 1));
            assert(x@.skip(i as int)[0] == x@[i as int]);
            assert(y@.skip(i as int)[0] == y@[i as int]);
        }
        i += 1;
    }
    proof {
        if i < x@.len() {
            assert(x@.skip(i as int)[0] == x@[i as int]);
        }
        if i < y@.len() {
            assert(y@.skip(i as int)[0] == y@[i as int]);
        }
    }
    if i == x.len() {
        i < y.len()
    } else if i == y.len() {
        false
    } else {
        x[i] < y[i]
    }
}

/// An ordered string list holds no string twice.
pub proof fn lemma_ordered_strings_distinct(s: Seq<String>)
    requires
        ordered_strings(s),
    ensures
        forall|i: int, j: int| 0 <= i < j < s.len() ==> s[i]@ != s[j]@,
{
    assert forall|i: int, j: int| 0 <= i < j < s.len() implies s[i]@ != s[j]@ by {
        lemma_text_before_irreflexive(s[i]@);
        assert(text_before(s[i]@, s[j]@));
    }
}

/// Whether the sets a scalar part holds are in increasing order: a text
/// part's alternatives, a taint part's paths.
pub open spec fn part_sets_ordered(part: StringPart) -> bool {
    match part {
        StringPart::Text(alternatives) => ordered_strings(alternatives@),
        StringPart::Splice(_) => true,
        StringPart::Taint(taint) => ordered_strings(taint.paths@),
    }
}

/// Stamping a site on a part leaves its sets as they were.
pub proof fn lemma_stamp_part_keeps_sets(part: StringPart, site: Option<Rc<SiteFacts>>)
    ensures
        part_sets_ordered(stamp_part_view(part, site)) == part_sets_ordered(part),
{
}

/// A copy of a part holds its sets in the same order.
pub proof fn lemma_same_part_keeps_sets(a: StringPart, b: StringPart)
    requires
        same_part(a, b),
    ensures
        part_sets_ordered(a) == part_sets_ordered(b),
{
}

impl TaintPart {
    /// Taint with no resolved site (stamped later by the interpreter) over a
    /// set of paths in increasing order.
    pub fn new(paths: Vec<String>) -> (taint: Self)
        requires
            ordered_strings(paths@),
        ensures
            taint.paths == paths,
            !taint.json_serialized,
            taint.site is None,
            taint.provenance@.len() == 0,
    {
        TaintPart { paths, json_serialized: false, site: None, provenance: Vec::new() }
    }
}

impl Splice {
    /// A plain scalar splice with default meta.
    pub fn scalar(values_path: String) -> (splice: Self)
        ensures
            splice.values_path == values_path,
            splice.kind == ValueKind::Scalar,
            splice.meta == SpliceMeta::plain(splice.meta.provenance),
            splice.meta.provenance@.len() == 0,
    {
        Splice { values_path, kind: ValueKind::Scalar, meta: SpliceMeta::new() }
    }
}

impl SpliceMeta {
    /// Meta with every flag unset, no site, and the given provenance.
    pub open spec fn plain(provenance: Vec<ContractProvenance>) -> SpliceMeta {
        SpliceMeta {
            defaulted: false,
            encoded: false,
            shape_erased: false,
            yaml_serialized: false,
            string_contract: false,
            json_serialized: false,
            json_decoded: false,
            stringified: false,
            range_key: false,
            split_segment: false,
            provenance,
            site: None,
        }
    }

    /// Meta with every flag unset, no provenance and no site.
    pub fn new() -> (meta: Self)
        ensures
            meta == SpliceMeta::plain(meta.provenance),
            meta.provenance@.len() == 0,
    {
        SpliceMeta {
            defaulted: false,
            encoded: false,
            shape_erased: false,
            yaml_serialized: false,
            string_contract: false,
            json_serialized: false,
            json_decoded: false,
            stringified: false,
            range_key: false,
            split_segment: false,
            provenance: Vec::new(),
            site: None,
        }
    }
}

impl Opaque {
    /// Unknown scalar content with no attributable influence.
    pub fn unattributed() -> (opaque: Self)
        ensures
            opaque.taint@.len() == 0,
            opaque.kind == ValueKind::Scalar,
            opaque.site is None,
            opaque.provenance@.len() == 0,
    {
        Opaque { taint: Vec::new(), kind: ValueKind::Scalar, site: None, provenance: Vec::new() }
    }
}

impl Default for Opaque {
    fn default() -> (opaque: Self)
        ensures
            opaque.taint@.len() == 0,
            opaque.kind == ValueKind::Scalar,
            opaque.site is None,
            opaque.provenance@.len() == 0,
    {
        Opaque::unattributed()
    }
}

// ---------------------------------------------------------------------
// Copies of scalar parts
// ---------------------------------------------------------------------

/// Whether two splice metas agree flag by flag, in their provenance
/// sequence and in their site.
pub open spec fn same_meta(a: SpliceMeta, b: SpliceMeta) -> bool {
    &&& a.defaulted == b.defaulted
    &&& a.encoded == b.encoded
    &&& a.shape_erased == b.shape_erased
    &&& a.yaml_serialized == b.yaml_serialized
    &&& a.string_contract == b.string_contract
    &&& a.json_serialized == b.json_serialized
    &&& a.json_decoded == b.json_decoded
    &&& a.stringified == b.stringified
    &&& a.range_key == b.range_key
    &&& a.split_segment == b.split_segment
    &&& a.provenance@ == b.provenance@
    &&& a.site == b.site
}

/// Whether two splices render the same path the same way.
pub open spec fn same_splice(a: Splice, b: Splice) -> bool {
    &&& a.values_path == b.values_path
    &&& a.kind == b.kind
    &&& same_meta(a.meta, b.meta)
}

/// Whether two taint parts carry the same paths, flag, site and provenance.
pub open spec fn same_taint(a: TaintPart, b: TaintPart) -> bool {
    &&& a.paths@ == b.paths@
    &&& a.json_serialized == b.json_serialized
    &&& a.site == b.site
    &&& a.provenance@ == b.provenance@
}

/// Whether two scalar parts are the same part: same variant, and the same
/// contents with vectors compared by their elements.
pub open spec fn same_part(a: StringPart, b: StringPart) -> bool {
    match (a, b) {
        (StringPart::Text(x), StringPart::Text(y)) => x@ == y@,
        (StringPart::Splice(x), StringPart::Splice(y)) => same_splice(x, y),
        (StringPart::Taint(x), StringPart::Taint(y)) => same_taint(x, y),
        _ => false,
    }
}

/// Whether two part sequences are the same parts in the same order.
pub open spec fn same_parts(a: Seq<StringPart>, b: Seq<StringPart>) -> bool {
    &&& a.len() == b.len()
    &&& forall|i: int| 0 <= i < a.len() ==> same_part(#[trigger] a[i], b[i])
}

impl ContractProvenance {
    /// An equal copy.
    pub fn duplicate(&self) -> (copy: Self)
        ensures
            copy == *self,
    {
        ContractProvenance { source_path: self.source_path.clone(), start: self.start, end: self.end }
    }
}

/// A copy of a provenance list, element by element.
fn duplicate_provenance(list: &Vec<ContractProvenance>) -> (copy: Vec<ContractProvenance>)
    ensures
        copy@ == list@,
{
    let mut copy: Vec<ContractProvenance> = Vec::new();
    let mut i: usize = 0;
    while i < list.len()
        invariant
            i <= list@.len(),
            copy@ == list@.subrange(0, i as int),
        decreases list@.len() - i,
    {
        copy.push(list[i].duplicate());
        proof {
            assert(list@.subrange(0, i + 1) =~= list@.subrange(0, i as int).push(list@[i as int]));
        }
        i += 1;
    }
    assert(list@.subrange(0, list@.len() as int) =~= list@);
    copy
}

/// A copy of a string list, element by element.
fn duplicate_strings(list: &Vec<String>) -> (copy: Vec<String>)
    ensures
        copy@ == list@,
{
    let mut copy: Vec<String> = Vec::new();
    let mut i: usize = 0;
    while i < list.len()
        invariant
            i <= list@.len(),
            copy@ == list@.subrange(0, i as int),
        decreases list@.len() - i,
    {
        copy.push(list[i].clone());
        proof {
            assert(list@.subrange(0, i + 1) =~= list@.subrange(0, i as int).push(list@[i as int]));
        }
        i += 1;
    }
    assert(list@.subrange(0, list@.len() as int) =~= list@);
    copy
}

impl SpliceMeta {
    /// A copy sharing the same site.
    pub fn duplicate(&self) -> (copy: Self)
        ensures
            same_meta(copy, *self),
    {
        SpliceMeta {
            defaulted: self.defaulted,
            encoded: self.encoded,
            shape_erased: self.shape_erased,
            yaml_serialized: self.yaml_serialized,
            string_contract: self.string_contract,
            json_serialized: self.json_serialized,
            json_decoded: self.json_decoded,
            stringified: self.stringified,
            range_key: self.range_key,
            split_segment: self.split_segment,
            provenance: duplicate_provenance(&self.provenance),
            site: share_site(&self.site),
        }
    }
}

impl Splice {
    /// A copy sharing the same site.
    pub fn duplicate(&self) -> (copy: Self)
        ensures
            same_splice(copy, *self),
    {
        Splice { values_path: self.values_path.clone(), kind: self.kind, meta: self.meta.duplicate() }
    }
}

impl TaintPart {
    /// A copy sharing the same site.
    pub fn duplicate(&self) -> (copy: Self)
        ensures
            same_taint(copy, *self),
    {
        TaintPart {
            paths: duplicate_strings(&self.paths),
            json_serialized: self.json_serialized,
            site: share_site(&self.site),
            provenance: duplicate_provenance(&self.provenance),
        }
    }
}

impl StringPart {
    /// A copy sharing the same site.
    pub fn duplicate(&self) -> (copy: Self)
        ensures
            same_part(copy, *self),
    {
        match self {
            StringPart::Text(alternatives) => StringPart::Text(duplicate_strings(alternatives)),
            StringPart::Splice(splice) => StringPart::Splice(splice.duplicate()),
            StringPart::Taint(taint) => StringPart::Taint(taint.duplicate()),
        }
    }
}

/// A copy of a part list, part by part.
pub fn duplicate_parts(parts: &Vec<StringPart>) -> (copy: Vec<StringPart>)
    ensures
        same_parts(copy@, parts@),
{
    let mut copy: Vec<StringPart> = Vec::new();
    let mut i: usize = 0;
    while i < parts.len()
        invariant
            i <= parts@.len(),
            copy@.len() == i,
            forall|j: int| 0 <= j < i ==> same_part(#[trigger] copy@[j], parts@[j]),
        decreases parts@.len() - i,
    {
        copy.push(parts[i].duplicate());
        i += 1;
    }
    copy
}

// ---------------------------------------------------------------------
// Site stamping
// ---------------------------------------------------------------------

/// A shared handle to the same site facts.
#[verifier::external_body]
fn share_site(site: &Option<Rc<SiteFacts>>) -> (shared: Option<Rc<SiteFacts>>)
    ensures
        shared == *site,
{
    site.clone()
}

/// `current` when already set, otherwise `site`.
pub open spec fn fill_site(current: Option<Rc<SiteFacts>>, site: Option<Rc<SiteFacts>>) -> Option<
    Rc<SiteFacts>,
> {
    if current is None {
        site
    } else {
        current
    }
}

/// A string part with its site filled in when it had none.
pub open spec fn stamp_part_view(part: StringPart, site: Option<Rc<SiteFacts>>) -> StringPart {
    match part {
        StringPart::Text(t) => StringPart::Text(t),
        StringPart::Splice(s) => StringPart::Splice(
            Splice {
                values_path: s.values_path,
                kind: s.kind,
                meta: SpliceMeta {
                    defaulted: s.meta.defaulted,
                    encoded: s.meta.encoded,
                    shape_erased: s.meta.shape_erased,
                    yaml_serialized: s.meta.yaml_serialized,
                    string_contract: s.meta.string_contract,
                    json_serialized: s.meta.json_serialized,
                    json_decoded: s.meta.json_decoded,
                    stringified: s.meta.stringified,
                    range_key: s.meta.range_key,
                    split_segment: s.meta.split_segment,
                    provenance: s.meta.provenance,
                    site: fill_site(s.meta.site, site),
                },
            },
        ),
        StringPart::Taint(t) => StringPart::Taint(
            TaintPart {
                paths: t.paths,
                json_serialized: t.json_serialized,
                site: fill_site(t.site, site),
                provenance: t.provenance,
            },
        ),
    }
}

pub open spec fn stamp_parts_view(parts: Seq<StringPart>, site: Option<Rc<SiteFacts>>) -> Seq<
    StringPart,
> {
    Seq::new(parts.len(), |i: int| stamp_part_view(parts[i], site))
}

/// A fragment view with every row-producing node that has no site given
/// `site`.
pub open spec fn stamp_view(f: FragmentView, site: Option<Rc<SiteFacts>>) -> FragmentView
    decreases f,
{
    match f {
        FragmentView::Mapping(entries) => FragmentView::Mapping(stamp_entries_view(entries, site)),
        FragmentView::Sequence(items) => FragmentView::Sequence(stamp_items_view(items, site)),
        FragmentView::Scalar(parts, suppressed) => FragmentView::Scalar(
            stamp_parts_view(parts, site),
            suppressed,
        ),
        FragmentView::Splice(s) => match stamp_part_view(StringPart::Splice(s), site) {
            StringPart::Splice(t) => FragmentView::Splice(t),
            _ => FragmentView::Splice(s),
        },
        FragmentView::Opaque(o) => FragmentView::Opaque(
            Opaque { taint: o.taint, kind: o.kind, site: fill_site(o.site, site), provenance: o.provenance },
        ),
    }
}

pub open spec fn stamp_arms_view(arms: Seq<ArmView>, site: Option<Rc<SiteFacts>>) -> Seq<ArmView>
    decreases arms,
{
    if arms.len() == 0 {
        Seq::empty()
    } else {
        stamp_arms_view(arms.subrange(0, arms.len() - 1), site).push(
            (arms[arms.len() - 1].0, stamp_view(arms[arms.len() - 1].1, site)),
        )
    }
}

pub open spec fn stamp_entries_view(entries: Seq<(EntryKey, Seq<ArmView>)>, site: Option<Rc<SiteFacts>>) -> Seq<
    (EntryKey, Seq<ArmView>),
>
    decreases entries,
{
    if entries.len() == 0 {
        Seq::empty()
    } else {
        stamp_entries_view(entries.subrange(0, entries.len() - 1), site).push(
            (entries[entries.len() - 1].0, stamp_arms_view(entries[entries.len() - 1].1, site)),
        )
    }
}

pub open spec fn stamp_items_view(items: Seq<Seq<ArmView>>, site: Option<Rc<SiteFacts>>) -> Seq<
    Seq<ArmView>,
>
    decreases items,
{
    if items.len() == 0 {
        Seq::empty()
    } else {
        stamp_items_view(items.subrange(0, items.len() - 1), site).push(
            stamp_arms_view(items[items.len() - 1], site),
        )
    }
}

fn stamp_part(part: StringPart, site: &Option<Rc<SiteFacts>>) -> (stamped: StringPart)
    ensures
        stamped == stamp_part_view(part, *site),
{
    match part {
        StringPart::Text(t) => StringPart::Text(t),
        StringPart::Splice(s) => {
            let mut s = s;
            if s.meta.site.is_none() {
                s.meta.site = share_site(site);
            }
            StringPart::Splice(s)
        },
        StringPart::Taint(t) => {
            let mut t = t;
            if t.site.is_none() {
                t.site = share_site(site);
            }
            StringPart::Taint(t)
        },
    }
}

fn stamp_parts(parts: Vec<StringPart>, site: &Option<Rc<SiteFacts>>) -> (stamped: Vec<StringPart>)
    ensures
        stamped@ == stamp_parts_view(parts@, *site),
{
    let ghost initial = parts@;
    let ghost n = initial.len();
    let mut source = parts;
    let mut out: Vec<StringPart> = Vec::new();
    while source.len() > 0
        invariant
            n == initial.len(),
            source@.len() <= n,
            source@ == initial.subrange(n - source@.len(), n as int),
            out@.len() == n - source@.len(),
            forall|i: int| 0 <= i < out@.len() ==> #[trigger] out@[i] == stamp_part_view(initial[i], *site),
        decreases source@.len(),
    {
        let part = source.remove(0);
        out.push(stamp_part(part, site));
    }
    assert(out@ =~= stamp_parts_view(initial, *site));
    out
}

fn stamp_node_sites(node: AbstractFragment, site: &Option<Rc<SiteFacts>>) -> (stamped: AbstractFragment)
    ensures
        fragment_view(stamped) == stamp_view(fragment_view(node), *site),
    decreases node,
{
    match node {
        AbstractFragment::Mapping(m) => {
            let entries = stamp_entries(m.entries, site);
            AbstractFragment::Mapping(Mapping { entries })
        },
        AbstractFragment::Sequence(s) => {
            let items = stamp_items(s.items, site);
            AbstractFragment::Sequence(Sequence { items })
        },
        AbstractFragment::Scalar(s) => {
            let parts = stamp_parts(s.parts, site);
            AbstractFragment::Scalar(AbstractString { parts, suppressed: s.suppressed })
        },
        AbstractFragment::Splice(s) => {
            let mut s = s;
            if s.meta.site.is_none() {
                s.meta.site = share_site(site);
            }
            AbstractFragment::Splice(s)
        },
        AbstractFragment::Opaque(o) => {
            let mut o = o;
            if o.site.is_none() {
                o.site = share_site(site);
            }
            AbstractFragment::Opaque(o)
        },
    }
}

fn stamp_arms(arms: Vec<(PathCondition, AbstractFragment)>, site: &Option<Rc<SiteFacts>>) -> (stamped: Vec<(PathCondition, AbstractFragment)>)
    ensures
        arms_view(stamped@) == stamp_arms_view(arms_view(arms@), *site),
    decreases arms,
{
    let ghost initial = arms@;
    let ghost n = initial.len();
    let mut source = arms;
    let mut out: Vec<(PathCondition, AbstractFragment)> = Vec::new();
    while source.len() > 0
        invariant
            initial == arms@,
            n == initial.len(),
            source@.len() <= n,
            source@ == initial.subrange(n - source@.len(), n as int),
            arms_view(out@) == stamp_arms_view(arms_view(initial.subrange(0, n - source@.len())), *site),
        decreases source@.len(),
    {
        let ghost k = n - source@.len();
        let (condition, node) = source.remove(0);
        proof {
            assert(initial[k] == (condition, node));
        }
        proof {
            assert(arms@[k] == initial[k]);
            assert(decreases_to!(arms => arms@));
            assert(decreases_to!(arms@ => arms@[k]));
        }
        let stamped = stamp_node_sites(node, site);
        let ghost before = out@;
        out.push((condition, stamped));
        proof {
            lemma_arms_view_push(before, (condition, stamped));
            let prefix = initial.subrange(0, k);
            assert(initial.subrange(0, k + 1) =~= prefix.push(initial[k]));
            lemma_arms_view_push(prefix, initial[k]);
            let pv = arms_view(prefix.push(initial[k]));
            assert(pv.subrange(0, pv.len() - 1) =~= arms_view(prefix));
        }
    }
    assert(initial.subrange(0, n as int) =~= initial);
    out
}

fn stamp_entries(entries: Vec<MappingEntry>, site: &Option<Rc<SiteFacts>>) -> (stamped: Vec<MappingEntry>)
    ensures
        entries_view(stamped@) == stamp_entries_view(entries_view(entries@), *site),
    decreases entries,
{
    let ghost initial = entries@;
    let ghost n = initial.len();
    let mut source = entries;
    let mut out: Vec<MappingEntry> = Vec::new();
    while source.len() > 0
        invariant
            initial == entries@,
            n == initial.len(),
            source@.len() <= n,
            source@ == initial.subrange(n - source@.len(), n as int),
            entries_view(out@) == stamp_entries_view(entries_view(initial.subrange(0, n - source@.len())), *site),
        decreases source@.len(),
    {
        let ghost k = n - source@.len();
        let entry = source.remove(0);
        proof {
            assert(initial[k] == entry);
        }
        proof {
            assert(entries@[k] == initial[k]);
            assert(decreases_to!(entries => entries@));
            assert(decreases_to!(entries@ => entries@[k]));
        }
        let arms = stamp_arms(entry.value.arms, site);
        let stamped = MappingEntry { key: entry.key, value: Guarded { arms } };
        let ghost before = out@;
        out.push(stamped);
        proof {
            lemma_entries_view_push(before, stamped);
            let prefix = initial.subrange(0, k);
            assert(initial.subrange(0, k + 1) =~= prefix.push(initial[k]));
            lemma_entries_view_push(prefix, initial[k]);
            let pv = entries_view(prefix.push(initial[k]));
            assert(pv.subrange(0, pv.len() - 1) =~= entries_view(prefix));
        }
    }
    assert(initial.subrange(0, n as int) =~= initial);
    out
}

fn stamp_items(items: Vec<Guarded<AbstractFragment>>, site: &Option<Rc<SiteFacts>>) -> (stamped: Vec<Guarded<AbstractFragment>>)
    ensures
        items_view(stamped@) == stamp_items_view(items_view(items@), *site),
    decreases items,
{
    let ghost initial = items@;
    let ghost n = initial.len();
    let mut source = items;
    let mut out: Vec<Guarded<AbstractFragment>> = Vec::new();
    while source.len() > 0
        invariant
            initial == items@,
            n == initial.len(),
            source@.len() <= n,
            source@ == initial.subrange(n - source@.len(), n as int),
            items_view(out@) == stamp_items_view(items_view(initial.subrange(0, n - source@.len())), *site),
        decreases source@.len(),
    {
        let ghost k = n - source@.len();
        let item = source.remove(0);
        proof {
            assert(initial[k] == item);
        }
        proof {
            assert(items@[k] == initial[k]);
            assert(decreases_to!(items => items@));
            assert(decreases_to!(items@ => items@[k]));
        }
        let arms = stamp_arms(item.arms, site);
        let stamped = Guarded { arms };
        let ghost before = out@;
        out.push(stamped);
        proof {
            lemma_items_view_push(before, stamped);
            let prefix = initial.subrange(0, k);
            assert(initial.subrange(0, k + 1) =~= prefix.push(initial[k]));
            lemma_items_view_push(prefix, initial[k]);
            let pv = items_view(prefix.push(initial[k]));
            assert(pv.subrange(0, pv.len() - 1) =~= items_view(prefix));
        }
    }
    assert(initial.subrange(0, n as int) =~= initial);
    out
}

/// Stamp `site` onto every row-producing node below `guarded` that has no
/// site yet (content that arrives already stamped keeps its facts).
pub fn stamp_fragment_sites(guarded: &mut Guarded<AbstractFragment>, site: &Option<Rc<SiteFacts>>)
    ensures
        guarded_view(*final(guarded)) == stamp_arms_view(guarded_view(*old(guarded)), *site),
{
    let mut arms: Vec<(PathCondition, AbstractFragment)> = Vec::new();
    std::mem::swap(&mut arms, &mut guarded.arms);
    guarded.arms = stamp_arms(arms, site);
}

/// Stamp `site` onto every splice and taint part that has no site yet.
pub fn stamp_part_sites(parts: &mut Vec<StringPart>, site: &Option<Rc<SiteFacts>>)
    ensures
        final(parts)@ == stamp_parts_view(old(parts)@, *site),
{
    let mut taken: Vec<StringPart> = Vec::new();
    std::mem::swap(&mut taken, parts);
    *parts = stamp_parts(taken, site);
}

/// Once stamped with a site, parts keep it: a later stamp changes nothing.
pub proof fn lemma_stamp_parts_keeps_site(parts: Seq<StringPart>, first: Option<Rc<SiteFacts>>, later: Option<Rc<SiteFacts>>)
    requires
        first is Some,
    ensures
        stamp_parts_view(stamp_parts_view(parts, first), later) == stamp_parts_view(parts, first),
{
    assert(stamp_parts_view(stamp_parts_view(parts, first), later) =~= stamp_parts_view(parts, first));
}

/// Once stamped with a site, a fragment keeps it: content that arrives
/// already stamped is not restamped.
pub proof fn lemma_stamp_view_keeps_site(f: FragmentView, first: Option<Rc<SiteFacts>>, later: Option<Rc<SiteFacts>>)
    requires
        first is Some,
    ensures
        stamp_view(stamp_view(f, first), later) == stamp_view(f, first),
    decreases f,
{
    match f {
        FragmentView::Mapping(entries) => lemma_stamp_entries_keeps_site(entries, first, later),
        FragmentView::Sequence(items) => lemma_stamp_items_keeps_site(items, first, later),
        FragmentView::Scalar(parts, _) => lemma_stamp_parts_keeps_site(parts, first, later),
        _ => {},
    }
}

/// [`lemma_stamp_view_keeps_site`] for guarded arms.
pub proof fn lemma_stamp_arms_keeps_site(arms: Seq<ArmView>, first: Option<Rc<SiteFacts>>, later: Option<Rc<SiteFacts>>)
    requires
        first is Some,
    ensures
        stamp_arms_view(stamp_arms_view(arms, first), later) == stamp_arms_view(arms, first),
    decreases arms,
{
    if arms.len() > 0 {
        let prefix = arms.subrange(0, arms.len() - 1);
        lemma_stamp_arms_keeps_site(prefix, first, later);
        lemma_stamp_view_keeps_site(arms[arms.len() - 1].1, first, later);
        let once = stamp_arms_view(arms, first);
        assert(once.subrange(0, once.len() - 1) =~= stamp_arms_view(prefix, first));
    }
}

/// [`lemma_stamp_view_keeps_site`] for mapping entries.
pub proof fn lemma_stamp_entries_keeps_site(
    entries: Seq<(EntryKey, Seq<ArmView>)>,
    first: Option<Rc<SiteFacts>>,
    later: Option<Rc<SiteFacts>>,
)
    requires
        first is Some,
    ensures
        stamp_entries_view(stamp_entries_view(entries, first), later) == stamp_entries_view(entries, first),
    decreases entries,
{
    if entries.len() > 0 {
        let prefix = entries.subrange(0, entries.len() - 1);
        lemma_stamp_entries_keeps_site(prefix, first, later);
        lemma_stamp_arms_keeps_site(entries[entries.len() - 1].1, first, later);
        let once = stamp_entries_view(entries, first);
        assert(once.subrange(0, once.len() - 1) =~= stamp_entries_view(prefix, first));
    }
}

/// [`lemma_stamp_view_keeps_site`] for sequence items.
pub proof fn lemma_stamp_items_keeps_site(items: Seq<Seq<ArmView>>, first: Option<Rc<SiteFacts>>, later: Option<Rc<SiteFacts>>)
    requires
        first is Some,
    ensures
        stamp_items_view(stamp_items_view(items, first), later) == stamp_items_view(items, first),
    decreases items,
{
    if items.len() > 0 {
        let prefix = items.subrange(0, items.len() - 1);
        lemma_stamp_items_keeps_site(prefix, first, later);
        lemma_stamp_arms_keeps_site(items[items.len() - 1], first, later);
        let once = stamp_items_view(items, first);
        assert(once.subrange(0, once.len() - 1) =~= stamp_items_view(prefix, first));
    }
}

/// Scalar arms as a guarded fragment: each arm a scalar of its parts under
/// its own condition, in order.
pub fn scalar_arms_to_fragment(arms: Vec<(PathCondition, Vec<StringPart>)>, suppressed: bool) -> (out: Guarded<AbstractFragment>)
    ensures
        arms_view(out.arms@) == arms@.map_values(
            |arm: (PathCondition, Vec<StringPart>)| (arm.0@, FragmentView::Scalar(arm.1@, suppressed)),
        ),
{
    let ghost initial = arms@;
    let ghost n = initial.len();
    let mut out: Guarded<AbstractFragment> = Guarded::empty();
    let mut source = arms;
    while source.len() > 0
        invariant
            n == initial.len(),
            source@.len() <= n,
            source@ == initial.subrange(n - source@.len(), n as int),
            arms_view(out.arms@) == initial.subrange(0, n - source@.len()).map_values(
                |arm: (PathCondition, Vec<StringPart>)| (arm.0@, FragmentView::Scalar(arm.1@, suppressed)),
            ),
        decreases source@.len(),
    {
        let ghost k = n - source@.len();
        let (condition, parts) = source.remove(0);
        let ghost before = out.arms@;
        let node = AbstractFragment::Scalar(AbstractString { parts, suppressed });
        out.arms.push((condition, node));
        proof {
            lemma_arms_view_push(before, out.arms@.last());
            assert(out.arms@ =~= before.push(out.arms@.last()));
            assert(initial[k] == (condition, parts));
            assert(initial.subrange(0, k + 1).map_values(
                |arm: (PathCondition, Vec<StringPart>)| (arm.0@, FragmentView::Scalar(arm.1@, suppressed)),
            ) =~= initial.subrange(0, k).map_values(
                |arm: (PathCondition, Vec<StringPart>)| (arm.0@, FragmentView::Scalar(arm.1@, suppressed)),
            ).push((condition@, FragmentView::Scalar(parts@, suppressed))));
        }
    }
    assert(initial.subrange(0, n as int) =~= initial);
    out
}

} // verus!
