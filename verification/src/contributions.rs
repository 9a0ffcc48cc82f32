//! What one level of template nodes contributes to its enclosing
//! container: mapping entries (one per literal key, repeated keys merging
//! their guarded arms), sequence items, standalone values, fragment output
//! still floating towards the container whose indent it renders inside,
//! and the loop exits (`break`/`continue`) raised inside the level.

use vstd::prelude::*;

use crate::conditions::{flat_conjuncts, predicate_has_range, predicate_is_conjunctive_subset};
use crate::domain::{
    AbstractFragment, ArmView, EntryKey, FragmentView, Guarded, Mapping, MappingEntry,
    PathCondition, Sequence, arms_view, entries_view, fragment_view, guard_arms_view, items_view,
    lemma_arms_view_concat, lemma_arms_view_len, lemma_arms_view_push, lemma_entries_view_ext,
    lemma_entries_view_len, lemma_entries_view_push, lemma_guard_all_view, lemma_items_view_len,
    lemma_items_view_push, and_conditions,
};
use crate::predicate::{Predicate, PredicateView, and_view, group_views, has_range};

verus! {

broadcast use group_views;

/// One loop exit (`break` or `continue`): the condition under which it is
/// taken and the local state it carries out of the loop body.
#[derive(Debug)]
pub struct ControlOutcome {
    pub condition: PathCondition,
    /// The symbolic local state at the exit, by id.
    pub state: u64,
}

impl ControlOutcome {
    /// Conjoin an enclosing region's condition onto the exit condition.
    pub fn guard_all(&mut self, condition: &PathCondition)
        ensures
            final(self).condition@ == and_view(condition@, old(self).condition@),
            final(self).state == old(self).state,
    {
        let mut current = Predicate::True;
        std::mem::swap(&mut current, &mut self.condition);
        self.condition = and_conditions(condition.duplicate(), current);
    }

    /// Replace the carried local state.
    pub fn replace_state(&mut self, state: u64)
        ensures
            final(self).condition == old(self).condition,
            final(self).state == state,
    {
        self.state = state;
    }
}

/// The view of a loop exit.
pub open spec fn outcome_view(o: ControlOutcome) -> (PredicateView, u64) {
    (o.condition@, o.state)
}

pub open spec fn outcomes_view(s: Seq<ControlOutcome>) -> Seq<(PredicateView, u64)> {
    Seq::new(s.len(), |i: int| outcome_view(s[i]))
}

/// The loop exits raised inside one level.
#[derive(Debug, Default)]
pub struct LoopControl {
    pub breaks: Vec<ControlOutcome>,
    pub continues: Vec<ControlOutcome>,
}

/// Every exit guarded by `condition`.
pub open spec fn guard_outcomes_view(condition: PredicateView, s: Seq<(PredicateView, u64)>) -> Seq<
    (PredicateView, u64),
> {
    Seq::new(s.len(), |i: int| (and_view(condition, s[i].0), s[i].1))
}

/// Every exit carrying `state`.
pub open spec fn restate_outcomes_view(state: u64, s: Seq<(PredicateView, u64)>) -> Seq<(PredicateView, u64)> {
    Seq::new(s.len(), |i: int| (s[i].0, state))
}

/// Guard every outcome of `exits` by `condition`.
fn guard_outcomes(exits: &mut Vec<ControlOutcome>, condition: &PathCondition)
    ensures
        outcomes_view(final(exits)@) == guard_outcomes_view(condition@, outcomes_view(old(exits)@)),
{
    let ghost initial = exits@;
    let ghost n = initial.len();
    let mut source: Vec<ControlOutcome> = Vec::new();
    std::mem::swap(&mut source, exits);
    while source.len() > 0
        invariant
            n == initial.len(),
            source@.len() <= n,
            source@ == initial.subrange(n - source@.len(), n as int),
            exits@.len() == n - source@.len(),
            forall|i: int|
                0 <= i < exits@.len() ==> outcome_view(#[trigger] exits@[i]) == (
                    and_view(condition@, initial[i].condition@),
                    initial[i].state,
                ),
        decreases source@.len(),
    {
        let mut exit = source.remove(0);
        exit.guard_all(condition);
        exits.push(exit);
    }
    assert(outcomes_view(exits@) =~= guard_outcomes_view(condition@, outcomes_view(initial)));
}

/// Give every outcome of `exits` the local state `state`.
fn restate_outcomes(exits: &mut Vec<ControlOutcome>, state: u64)
    ensures
        outcomes_view(final(exits)@) == restate_outcomes_view(state, outcomes_view(old(exits)@)),
{
    let ghost initial = exits@;
    let ghost n = initial.len();
    let mut source: Vec<ControlOutcome> = Vec::new();
    std::mem::swap(&mut source, exits);
    while source.len() > 0
        invariant
            n == initial.len(),
            source@.len() <= n,
            source@ == initial.subrange(n - source@.len(), n as int),
            exits@.len() == n - source@.len(),
            forall|i: int|
                0 <= i < exits@.len() ==> outcome_view(#[trigger] exits@[i]) == (
                    initial[i].condition@,
                    state,
                ),
        decreases source@.len(),
    {
        let mut exit = source.remove(0);
        exit.replace_state(state);
        exits.push(exit);
    }
    assert(outcomes_view(exits@) =~= restate_outcomes_view(state, outcomes_view(initial)));
}

impl LoopControl {
    /// Conjoin an enclosing region's condition onto every exit.
    pub fn guard_all(&mut self, condition: &PathCondition)
        ensures
            outcomes_view(final(self).breaks@) == guard_outcomes_view(condition@, outcomes_view(old(self).breaks@)),
            outcomes_view(final(self).continues@) == guard_outcomes_view(condition@, outcomes_view(old(self).continues@)),
    {
        guard_outcomes(&mut self.breaks, condition);
        guard_outcomes(&mut self.continues, condition);
    }

    /// Append the exits of `other` after this level's.
    pub fn extend(&mut self, other: Self)
        ensures
            final(self).breaks@ == old(self).breaks@ + other.breaks@,
            final(self).continues@ == old(self).continues@ + other.continues@,
    {
        let mut other = other;
        self.breaks.append(&mut other.breaks);
        self.continues.append(&mut other.continues);
    }

    /// Every exit now carries the local state `state`.
    pub fn replace_states(&mut self, state: u64)
        ensures
            outcomes_view(final(self).breaks@) == restate_outcomes_view(state, outcomes_view(old(self).breaks@)),
            outcomes_view(final(self).continues@) == restate_outcomes_view(state, outcomes_view(old(self).continues@)),
    {
        restate_outcomes(&mut self.breaks, state);
        restate_outcomes(&mut self.continues, state);
    }
}

/// One fragment output looking for its container.
#[derive(Debug)]
pub struct FloatingOutput {
    /// The rendered indent (`nindent`/`indent` width).
    pub width: usize,
    /// Whether `width` is only the action's source column (a lower bound)
    /// because the expression states no width of its own.
    pub column_only: bool,
    /// The action's byte position.
    pub origin: usize,
    pub value: Guarded<AbstractFragment>,
}

/// The view of a floating output.
pub struct FloatingView {
    pub width: usize,
    pub column_only: bool,
    pub origin: usize,
    pub value: Seq<ArmView>,
}

pub open spec fn floating_view(f: FloatingOutput) -> FloatingView {
    FloatingView {
        width: f.width,
        column_only: f.column_only,
        origin: f.origin,
        value: arms_view(f.value.arms@),
    }
}

pub open spec fn floatings_view(s: Seq<FloatingOutput>) -> Seq<FloatingView> {
    Seq::new(s.len(), |i: int| floating_view(s[i]))
}

/// What one level of nodes contributes to its enclosing container.
#[derive(Debug)]
pub struct Contributions {
    pub entries: Vec<MappingEntry>,
    pub items: Vec<Guarded<AbstractFragment>>,
    pub values: Guarded<AbstractFragment>,
    /// Fragment output carrying an explicit rendered indent: it attaches
    /// to the nearest enclosing container shallower than its indent.
    pub floating: Vec<FloatingOutput>,
    pub loop_control: LoopControl,
}

/// A mapping entry as a value.
pub type EntryView = (EntryKey, Seq<ArmView>);

/// The literal text of a key, if it is literal.
pub open spec fn literal_name(key: EntryKey) -> Option<Seq<char>> {
    match key {
        EntryKey::Literal(name) => Some(name@),
        EntryKey::Dynamic(_) => None,
    }
}

/// Entry `i` has the literal key `name`.
pub open spec fn names(entries: Seq<EntryView>, i: int, name: Seq<char>) -> bool {
    literal_name(entries[i].0) == Some(name)
}

/// The first entry with the literal key `name`, if any.
pub open spec fn first_literal(entries: Seq<EntryView>, name: Seq<char>) -> Option<int> {
    if exists|i: int|
        0 <= i < entries.len() && #[trigger] names(entries, i, name) && forall|j: int|
            0 <= j < i ==> !#[trigger] names(entries, j, name) {
        Some(
            choose|i: int|
                0 <= i < entries.len() && #[trigger] names(entries, i, name) && forall|j: int|
                    0 <= j < i ==> !#[trigger] names(entries, j, name),
        )
    } else {
        None
    }
}

/// `entries` after merging `(key, arms)`: a literal key already present
/// gains the arms on its first entry; any other key is appended.
pub open spec fn merge_entry_view(entries: Seq<EntryView>, key: EntryKey, arms: Seq<ArmView>) -> Seq<
    EntryView,
> {
    match literal_name(key) {
        Some(name) => match first_literal(entries, name) {
            Some(i) => entries.update(i, (entries[i].0, entries[i].1 + arms)),
            None => entries.push((key, arms)),
        },
        None => entries.push((key, arms)),
    }
}

/// `entries` after merging every entry of `others` in order.
pub open spec fn merge_all_view(entries: Seq<EntryView>, others: Seq<EntryView>) -> Seq<EntryView>
    decreases others.len(),
{
    if others.len() == 0 {
        entries
    } else {
        let merged = merge_all_view(entries, others.drop_last());
        merge_entry_view(merged, others.last().0, others.last().1)
    }
}

/// No literal key occurs on two entries.
pub open spec fn literal_keys_unique(entries: Seq<EntryView>) -> bool {
    forall|i: int, j: int|
        0 <= i < j < entries.len() && (#[trigger] literal_name(entries[i].0)) is Some ==> literal_name(
            entries[i].0,
        ) != #[trigger] literal_name(entries[j].0)
}

/// Every entry guarded by `condition`.
pub open spec fn guard_entries_view(condition: PredicateView, entries: Seq<EntryView>) -> Seq<EntryView> {
    Seq::new(entries.len(), |i: int| (entries[i].0, guard_arms_view(condition, entries[i].1)))
}

/// The non-empty items, each guarded by `condition`.
pub open spec fn guard_items_view(condition: PredicateView, items: Seq<Seq<ArmView>>) -> Seq<Seq<ArmView>>
    decreases items.len(),
{
    if items.len() == 0 {
        Seq::empty()
    } else {
        let rest = guard_items_view(condition, items.drop_last());
        if items.last().len() > 0 {
            rest.push(guard_arms_view(condition, items.last()))
        } else {
            rest
        }
    }
}

/// The floating outputs with a non-empty value, each guarded.
pub open spec fn guard_floatings_view(condition: PredicateView, fs: Seq<FloatingView>) -> Seq<FloatingView>
    decreases fs.len(),
{
    if fs.len() == 0 {
        Seq::empty()
    } else {
        let rest = guard_floatings_view(condition, fs.drop_last());
        let f = fs.last();
        if f.value.len() > 0 {
            rest.push(FloatingView { value: guard_arms_view(condition, f.value), ..f })
        } else {
            rest
        }
    }
}

/// The arms of every floating output's value, in order.
pub open spec fn floating_arms(fs: Seq<FloatingView>) -> Seq<ArmView>
    decreases fs.len(),
{
    if fs.len() == 0 {
        Seq::empty()
    } else {
        floating_arms(fs.drop_last()) + fs.last().value
    }
}

/// Adding `other`'s entries one by one keeps literal keys unique.
pub proof fn lemma_merge_keeps_keys_unique(entries: Seq<EntryView>, key: EntryKey, arms: Seq<ArmView>)
    requires
        literal_keys_unique(entries),
    ensures
        literal_keys_unique(merge_entry_view(entries, key, arms)),
{
    let merged = merge_entry_view(entries, key, arms);
    match literal_name(key) {
        Some(name) => {
            match first_literal(entries, name) {
                Some(i) => {
                    assert forall|a: int, b: int|
                        0 <= a < b < merged.len() && (#[trigger] literal_name(merged[a].0)) is Some implies literal_name(
                            merged[a].0,
                        ) != #[trigger] literal_name(merged[b].0) by {
                        assert(merged[a].0 == entries[a].0 && merged[b].0 == entries[b].0);
                    }
                },
                None => {
                    assert forall|a: int, b: int|
                        0 <= a < b < merged.len() && (#[trigger] literal_name(merged[a].0)) is Some implies literal_name(
                            merged[a].0,
                        ) != #[trigger] literal_name(merged[b].0) by {
                        if b == entries.len() {
                            assert(merged[a] == entries[a]);
                            if literal_name(entries[a].0) == Some(name) {
                                assert(names(entries, a, name));
                            }
                        } else {
                            assert(merged[a] == entries[a] && merged[b] == entries[b]);
                        }
                    }
                },
            }
        },
        None => {
            assert forall|a: int, b: int|
                0 <= a < b < merged.len() && (#[trigger] literal_name(merged[a].0)) is Some implies literal_name(
                    merged[a].0,
                ) != #[trigger] literal_name(merged[b].0) by {
                if b == entries.len() {
                    assert(merged[a] == entries[a]);
                } else {
                    assert(merged[a] == entries[a] && merged[b] == entries[b]);
                }
            }
        },
    }
}

/// Merging a whole list of entries keeps literal keys unique.
pub proof fn lemma_merge_all_keeps_keys_unique(entries: Seq<EntryView>, others: Seq<EntryView>)
    requires
        literal_keys_unique(entries),
    ensures
        literal_keys_unique(merge_all_view(entries, others)),
    decreases others.len(),
{
    if others.len() > 0 {
        lemma_merge_all_keeps_keys_unique(entries, others.drop_last());
        lemma_merge_keeps_keys_unique(merge_all_view(entries, others.drop_last()), others.last().0, others.last().1);
    }
}

/// Whether a floating output renders inside a container of indent
/// `container_indent`: strictly deeper output always does; output at the
/// container's own indent does when the container accepts same-indent
/// content and was not yet marked (a stated width) or still empty (a
/// column-only width) when the output ran.
pub open spec fn attaches(
    f: FloatingView,
    container_indent: usize,
    accepts_same_indent: bool,
    marked_at: Option<usize>,
    content_at: Option<usize>,
) -> bool {
    let same_indent_ok = if f.column_only {
        accepts_same_indent && match content_at {
            Some(at) => at >= f.origin,
            None => true,
        }
    } else {
        f.width == container_indent && accepts_same_indent && match marked_at {
            Some(marked) => marked >= f.origin,
            None => true,
        }
    };
    f.width > container_indent || same_indent_ok
}

/// The floating outputs that attach, in order.
pub open spec fn attached_floatings(
    fs: Seq<FloatingView>,
    container_indent: usize,
    accepts_same_indent: bool,
    marked_at: Option<usize>,
    content_at: Option<usize>,
) -> Seq<FloatingView>
    decreases fs.len(),
{
    if fs.len() == 0 {
        Seq::empty()
    } else {
        let rest = attached_floatings(fs.drop_last(), container_indent, accepts_same_indent, marked_at, content_at);
        if attaches(fs.last(), container_indent, accepts_same_indent, marked_at, content_at) {
            rest.push(fs.last())
        } else {
            rest
        }
    }
}

/// The floating outputs that keep floating, in order.
pub open spec fn kept_floatings(
    fs: Seq<FloatingView>,
    container_indent: usize,
    accepts_same_indent: bool,
    marked_at: Option<usize>,
    content_at: Option<usize>,
) -> Seq<FloatingView>
    decreases fs.len(),
{
    if fs.len() == 0 {
        Seq::empty()
    } else {
        let rest = kept_floatings(fs.drop_last(), container_indent, accepts_same_indent, marked_at, content_at);
        if attaches(fs.last(), container_indent, accepts_same_indent, marked_at, content_at) {
            rest
        } else {
            rest.push(fs.last())
        }
    }
}

/// Whether an arm continues a valueless mapping header `key`: a splice
/// under a `range` condition, or a mapping whose entries are all templated
/// keys or the header itself with no value.
pub open spec fn continues_header(arm: ArmView, key: Seq<char>) -> bool {
    match arm.1 {
        FragmentView::Splice(_) => has_range(arm.0),
        FragmentView::Mapping(es) => forall|i: int|
            0 <= i < es.len() ==> (#[trigger] es[i]).0 is Dynamic || (literal_name(es[i].0) == Some(key)
                && es[i].1.len() == 0),
        _ => false,
    }
}

/// The arms that continue the header, in order.
pub open spec fn continuation_arms(arms: Seq<ArmView>, key: Seq<char>) -> Seq<ArmView>
    decreases arms.len(),
{
    if arms.len() == 0 {
        Seq::empty()
    } else {
        let rest = continuation_arms(arms.drop_last(), key);
        if continues_header(arms.last(), key) {
            rest.push(arms.last())
        } else {
            rest
        }
    }
}

/// The arms that do not continue the header, in order.
pub open spec fn other_arms(arms: Seq<ArmView>, key: Seq<char>) -> Seq<ArmView>
    decreases arms.len(),
{
    if arms.len() == 0 {
        Seq::empty()
    } else {
        let rest = other_arms(arms.drop_last(), key);
        if continues_header(arms.last(), key) {
            rest
        } else {
            rest.push(arms.last())
        }
    }
}

/// The arms whose condition is not `False`, in order.
pub open spec fn drop_false_arms(arms: Seq<ArmView>) -> Seq<ArmView>
    decreases arms.len(),
{
    if arms.len() == 0 {
        Seq::empty()
    } else {
        let rest = drop_false_arms(arms.drop_last());
        if arms.last().0 != PredicateView::False {
            rest.push(arms.last())
        } else {
            rest
        }
    }
}

/// `acc` after merging each entry of `es` guarded by `condition`, entries
/// left without a satisfiable arm skipped.
pub open spec fn absorb_entries(acc: Seq<EntryView>, condition: PredicateView, es: Seq<EntryView>) -> Seq<EntryView>
    decreases es.len(),
{
    if es.len() == 0 {
        acc
    } else {
        let rest = absorb_entries(acc, condition, es.drop_last());
        let guarded = drop_false_arms(guard_arms_view(condition, es.last().1));
        if guarded.len() > 0 {
            merge_entry_view(rest, es.last().0, guarded)
        } else {
            rest
        }
    }
}

/// `acc` followed by each item of `its` guarded by `condition`, items
/// left without a satisfiable arm skipped.
pub open spec fn absorb_items(acc: Seq<Seq<ArmView>>, condition: PredicateView, its: Seq<Seq<ArmView>>) -> Seq<Seq<ArmView>>
    decreases its.len(),
{
    if its.len() == 0 {
        acc
    } else {
        let rest = absorb_items(acc, condition, its.drop_last());
        let guarded = drop_false_arms(guard_arms_view(condition, its.last()));
        if guarded.len() > 0 {
            rest.push(guarded)
        } else {
            rest
        }
    }
}

/// The entries, items and standalone values of one level.
pub struct LevelView {
    pub entries: Seq<EntryView>,
    pub items: Seq<Seq<ArmView>>,
    pub values: Seq<ArmView>,
}

/// A level after one guarded arm of a fragment dissolves into it: a
/// mapping's entries merge and a sequence's items append under the arm's
/// condition; any other node becomes a standalone value arm. An arm under
/// `False` contributes nothing.
pub open spec fn absorb_arm(level: LevelView, arm: ArmView) -> LevelView {
    if arm.0 == PredicateView::False {
        level
    } else {
        match arm.1 {
            FragmentView::Mapping(es) => LevelView { entries: absorb_entries(level.entries, arm.0, es), ..level },
            FragmentView::Sequence(its) => LevelView { items: absorb_items(level.items, arm.0, its), ..level },
            _ => LevelView { values: level.values.push(arm), ..level },
        }
    }
}

/// A level after every arm of a guarded fragment dissolves into it.
pub open spec fn absorb_arms(level: LevelView, arms: Seq<ArmView>) -> LevelView
    decreases arms.len(),
{
    if arms.len() == 0 {
        level
    } else {
        absorb_arm(absorb_arms(level, arms.drop_last()), arms.last())
    }
}

/// Whether entry `h` is a valueless literal header: a non-empty literal
/// key with no value arm.
pub open spec fn valueless_header_at(ev: Seq<EntryView>, h: int) -> bool {
    &&& literal_name(ev[h].0) matches Some(name)
    &&& name.len() > 0
    &&& ev[h].1.len() == 0
}

/// The last valueless literal header, if any.
pub open spec fn last_valueless_header(ev: Seq<EntryView>) -> Option<int> {
    if exists|h: int|
        0 <= h < ev.len() && #[trigger] valueless_header_at(ev, h) && forall|j: int|
            h < j < ev.len() ==> !#[trigger] valueless_header_at(ev, j) {
        Some(
            choose|h: int|
                0 <= h < ev.len() && #[trigger] valueless_header_at(ev, h) && forall|j: int|
                    h < j < ev.len() ==> !#[trigger] valueless_header_at(ev, j),
        )
    } else {
        None
    }
}

/// The continuation arms taken from each floating output, in order.
pub open spec fn floating_continuations(fs: Seq<FloatingView>, key: Seq<char>) -> Seq<ArmView>
    decreases fs.len(),
{
    if fs.len() == 0 {
        Seq::empty()
    } else {
        floating_continuations(fs.drop_last(), key) + continuation_arms(fs.last().value, key)
    }
}

/// The floating outputs with their continuation arms removed, those left
/// without an arm dropped.
pub open spec fn floating_remainders(fs: Seq<FloatingView>, key: Seq<char>) -> Seq<FloatingView>
    decreases fs.len(),
{
    if fs.len() == 0 {
        Seq::empty()
    } else {
        let rest = floating_remainders(fs.drop_last(), key);
        let f = fs.last();
        let remaining = other_arms(f.value, key);
        if remaining.len() > 0 {
            rest.push(FloatingView { value: remaining, ..f })
        } else {
            rest
        }
    }
}

/// The position of the first entry with literal key `name`.
fn find_literal(entries: &Vec<MappingEntry>, name: &String) -> (found: Option<usize>)
    ensures
        match found {
            Some(i) => i < entries@.len() && first_literal(entries_view(entries@), name@) == Some(i as int),
            None => first_literal(entries_view(entries@), name@) is None,
        },
{
    let ghost ev = entries_view(entries@);
    proof {
        lemma_entries_view_len(entries@);
    }
    let mut i: usize = 0;
    while i < entries.len()
        invariant
            i <= entries@.len(),
            ev == entries_view(entries@),
            ev.len() == entries@.len(),
            forall|j: int| 0 <= j < entries@.len() ==> #[trigger] ev[j] == (entries@[j].key, arms_view(entries@[j].value.arms@)),
            forall|j: int| 0 <= j < i ==> !#[trigger] names(ev, j, name@),
        decreases entries@.len() - i,
    {
        let matches = match &entries[i].key {
            EntryKey::Literal(existing) => existing.eq(name),
            EntryKey::Dynamic(_) => false,
        };
        if matches {
            proof {
                assert(names(ev, i as int, name@));
                let c = choose|j: int|
                    0 <= j < ev.len() && #[trigger] names(ev, j, name@) && forall|k: int|
                        0 <= k < j ==> !#[trigger] names(ev, k, name@);
                if c < i {
                    assert(!names(ev, c, name@));
                }
                if i < c {
                    assert(!names(ev, i as int, name@));
                }
            }
            return Some(i);
        }
        proof {
            assert(!names(ev, i as int, name@));
        }
        i += 1;
    }
    None
}

/// Merge `(key, value)` into `entries` (see [`merge_entry_view`]).
fn merge_entry_into(entries: &mut Vec<MappingEntry>, key: EntryKey, value: Guarded<AbstractFragment>)
    ensures
        entries_view(final(entries)@) == merge_entry_view(entries_view(old(entries)@), key, arms_view(value.arms@)),
{
    let ghost initial = entries@;
    let ghost ev = entries_view(initial);
    proof {
        lemma_entries_view_len(initial);
    }
    let found = match &key {
        EntryKey::Literal(name) => find_literal(entries, name),
        EntryKey::Dynamic(_) => None,
    };
    match found {
        Some(i) => {
            let mut entry = entries.remove(i);
            let ghost before_arms = entry.value.arms@;
            entry.value.extend(value);
            let ghost updated = entry;
            entries.insert(i, entry);
            proof {
                lemma_arms_view_concat(before_arms, value.arms@);
                assert(entries@ =~= initial.update(i as int, updated));
                let target = ev.update(i as int, (ev[i as int].0, ev[i as int].1 + arms_view(value.arms@)));
                lemma_entries_view_ext(entries@, target);
            }
        },
        None => {
            let ghost pushed = MappingEntry { key, value };
            entries.push(MappingEntry { key, value });
            proof {
                lemma_entries_view_push(initial, pushed);
            }
        },
    }
}

/// Guard every entry by `condition` (guarding never empties an entry, so
/// every entry stays).
fn guard_entries(entries: &mut Vec<MappingEntry>, condition: &PathCondition)
    ensures
        entries_view(final(entries)@) == guard_entries_view(condition@, entries_view(old(entries)@)),
{
    let ghost initial_entries = entries@;
    let ghost ne = initial_entries.len();
    let mut source: Vec<MappingEntry> = Vec::new();
    std::mem::swap(&mut source, entries);
    while source.len() > 0
        invariant
            ne == initial_entries.len(),
            source@.len() <= ne,
            source@ == initial_entries.subrange(ne - source@.len(), ne as int),
            entries@.len() == ne - source@.len(),
            forall|i: int|
                0 <= i < entries@.len() ==> (#[trigger] entries@[i]).key == initial_entries[i].key
                    && arms_view(entries@[i].value.arms@) == guard_arms_view(
                    condition@,
                    arms_view(initial_entries[i].value.arms@),
                ),
        decreases source@.len(),
    {
        let mut entry = source.remove(0);
        let ghost before = entry.value.arms@;
        let was_empty = entry.value.is_empty();
        entry.value.guard_all(condition);
        proof {
            lemma_guard_all_view(before, entry.value.arms@, condition@);
        }
        if was_empty || !entry.value.is_empty() {
            entries.push(entry);
        }
    }
    proof {
        lemma_entries_view_len(initial_entries);
        lemma_entries_view_ext(entries@, guard_entries_view(condition@, entries_view(initial_entries)));
    }
}

/// Guard every item by `condition`, dropping items with no arm.
fn guard_items(items: &mut Vec<Guarded<AbstractFragment>>, condition: &PathCondition)
    ensures
        items_view(final(items)@) == guard_items_view(condition@, items_view(old(items)@)),
{
    let ghost initial_items = items@;
    let ghost ni = initial_items.len();
    let mut items_source: Vec<Guarded<AbstractFragment>> = Vec::new();
    std::mem::swap(&mut items_source, items);
    while items_source.len() > 0
        invariant
            ni == initial_items.len(),
            items_source@.len() <= ni,
            items_source@ == initial_items.subrange(ni - items_source@.len(), ni as int),
            items_view(items@) == guard_items_view(
                condition@,
                items_view(initial_items.subrange(0, ni - items_source@.len())),
            ),
        decreases items_source@.len(),
    {
        let ghost k = ni - items_source@.len();
        let mut item = items_source.remove(0);
        let ghost before = item.arms@;
        item.guard_all(condition);
        proof {
            lemma_guard_all_view(before, item.arms@, condition@);
            lemma_arms_view_len(before);
            lemma_arms_view_len(item.arms@);
            let prefix = initial_items.subrange(0, k);
            assert(initial_items.subrange(0, k + 1) =~= prefix.push(initial_items[k]));
            lemma_items_view_push(prefix, initial_items[k]);
            let pv = items_view(prefix.push(initial_items[k]));
            assert(pv.drop_last() =~= items_view(prefix));
        }
        let ghost current = items@;
        if !item.is_empty() {
            items.push(item);
            proof {
                lemma_items_view_push(current, item);
            }
        }
    }
    assert(initial_items.subrange(0, ni as int) =~= initial_items);
}

/// Guard every floating output by `condition`, dropping those with no arm.
fn guard_floatings(floating: &mut Vec<FloatingOutput>, condition: &PathCondition)
    ensures
        floatings_view(final(floating)@) == guard_floatings_view(condition@, floatings_view(old(floating)@)),
{
    let ghost initial_floating = floating@;
    let ghost nf = initial_floating.len();
    let mut floating_source: Vec<FloatingOutput> = Vec::new();
    std::mem::swap(&mut floating_source, floating);
    while floating_source.len() > 0
        invariant
            nf == initial_floating.len(),
            floating_source@.len() <= nf,
            floating_source@ == initial_floating.subrange(nf - floating_source@.len(), nf as int),
            floatings_view(floating@) == guard_floatings_view(
                condition@,
                floatings_view(initial_floating.subrange(0, nf - floating_source@.len())),
            ),
        decreases floating_source@.len(),
    {
        let ghost k = nf - floating_source@.len();
        let mut output = floating_source.remove(0);
        let ghost before = output.value.arms@;
        output.value.guard_all(condition);
        proof {
            lemma_guard_all_view(before, output.value.arms@, condition@);
            lemma_arms_view_len(before);
            lemma_arms_view_len(output.value.arms@);
            let prefix = initial_floating.subrange(0, k);
            assert(initial_floating.subrange(0, k + 1) =~= prefix.push(initial_floating[k]));
            assert(floatings_view(prefix.push(initial_floating[k])).drop_last() =~= floatings_view(prefix));
        }
        let ghost current = floating@;
        if !output.value.is_empty() {
            floating.push(output);
            proof {
                assert(floatings_view(floating@) =~= floatings_view(current).push(floating_view(output)));
            }
        }
    }
    assert(initial_floating.subrange(0, nf as int) =~= initial_floating);
}

/// Whether `arm` continues the valueless mapping header `key`.
fn arm_continues_header(arm: &(PathCondition, AbstractFragment), key: &String) -> (answer: bool)
    ensures
        answer == continues_header((arm.0@, fragment_view(arm.1)), key@),
{
    node_continues_header(&arm.0, &arm.1, key)
}

/// Whether content `node` under `condition` continues the valueless
/// mapping header `key`.
fn node_continues_header(condition: &PathCondition, node: &AbstractFragment, key: &String) -> (answer: bool)
    ensures
        answer == continues_header((condition@, fragment_view(*node)), key@),
{
    match node {
        AbstractFragment::Splice(_) => predicate_has_range(condition),
        AbstractFragment::Mapping(mapping) => {
            let ghost ev = entries_view(mapping.entries@);
            proof {
                lemma_entries_view_len(mapping.entries@);
                assert(fragment_view(*node) == FragmentView::Mapping(ev));
            }
            let mut i: usize = 0;
            while i < mapping.entries.len()
                invariant
                    i <= mapping.entries@.len(),
                    ev == entries_view(mapping.entries@),
                    fragment_view(*node) == FragmentView::Mapping(ev),
                    ev.len() == mapping.entries@.len(),
                    forall|j: int| 0 <= j < mapping.entries@.len() ==> #[trigger] ev[j] == (mapping.entries@[j].key, arms_view(mapping.entries@[j].value.arms@)),
                    forall|j: int| 0 <= j < i ==> (#[trigger] ev[j]).0 is Dynamic || (literal_name(ev[j].0) == Some(key@)
                        && ev[j].1.len() == 0),
                decreases mapping.entries@.len() - i,
            {
                let entry = &mapping.entries[i];
                let ok = match &entry.key {
                    EntryKey::Dynamic(_) => true,
                    EntryKey::Literal(name) => name.eq(key) && entry.value.is_empty(),
                };
                proof {
                    lemma_arms_view_len(entry.value.arms@);
                    assert(ev[i as int] == (entry.key, arms_view(entry.value.arms@)));
                }
                if !ok {
                    proof {
                        assert(!((ev[i as int]).0 is Dynamic || (literal_name(ev[i as int].0) == Some(key@)
                            && ev[i as int].1.len() == 0)));
                    }
                    return false;
                }
                i += 1;
            }
            true
        },
        _ => false,
    }
}

/// The key of the mapping entry that `entries` leave open: their last
/// valueless literal header, when only templated keys follow it.
pub open spec fn open_header_key(entries: Seq<EntryView>) -> Option<Seq<char>> {
    match last_valueless_header(entries) {
        Some(h) => if forall|j: int| h < j < entries.len() ==> (#[trigger] entries[j]).0 is Dynamic {
            literal_name(entries[h].0)
        } else {
            None
        },
        None => None,
    }
}

/// The last arm that is a mapping leaving an entry open: its condition
/// and the open key.
pub open spec fn open_mapping_entry(arms: Seq<ArmView>) -> Option<(PredicateView, Seq<char>)>
    decreases arms.len(),
{
    if arms.len() == 0 {
        None
    } else {
        let found = match arms.last().1 {
            FragmentView::Mapping(entries) => match open_header_key(entries) {
                Some(key) => Some((arms.last().0, key)),
                None => None,
            },
            _ => None,
        };
        if found is Some {
            found
        } else {
            open_mapping_entry(arms.drop_last())
        }
    }
}

/// Whether templated keys alone follow entry `h`.
fn only_dynamic_after(entries: &Vec<MappingEntry>, h: usize) -> (only: bool)
    requires
        h < entries@.len(),
    ensures
        only == forall|j: int| h < j < entries@.len() ==> (#[trigger] entries_view(entries@)[j]).0 is Dynamic,
{
    proof {
        lemma_entries_view_len(entries@);
    }
    let n = entries.len();
    let mut j = h + 1;
    while j < n
        invariant
            h < j <= entries@.len(),
            n == entries@.len(),
            entries_view(entries@).len() == entries@.len(),
            forall|q: int| h < q < j ==> (#[trigger] entries_view(entries@)[q]).0 is Dynamic,
        decreases entries@.len() - j,
    {
        proof {
            lemma_entries_view_len(entries@);
        }
        match &entries[j].key {
            EntryKey::Dynamic(_) => {},
            EntryKey::Literal(_) => {
                proof {
                    assert(!(entries_view(entries@)[j as int].0 is Dynamic));
                }
                return false;
            },
        }
        j += 1;
    }
    true
}

/// The trailing literal mapping entry an arm leaves open: a valueless
/// header whose only successors are templated entries, in the last arm
/// that has one. Its condition and key.
pub fn find_open_mapping_entry(guarded: &Guarded<AbstractFragment>) -> (found: Option<(PathCondition, String)>)
    ensures
        match found {
            Some((condition, key)) => open_mapping_entry(arms_view(guarded.arms@)) == Some((condition@, key@)),
            None => open_mapping_entry(arms_view(guarded.arms@)) is None,
        },
{
    let ghost av = arms_view(guarded.arms@);
    proof {
        lemma_arms_view_len(guarded.arms@);
    }
    let mut i = guarded.arms.len();
    assert(av.take(av.len() as int) =~= av);
    while i > 0
        invariant
            i <= guarded.arms@.len(),
            av == arms_view(guarded.arms@),
            av.len() == guarded.arms@.len(),
            open_mapping_entry(av) == open_mapping_entry(av.take(i as int)),
        decreases i,
    {
        let arm = &guarded.arms[i - 1];
        proof {
            lemma_arms_view_len(guarded.arms@);
            assert(av[i - 1] == (arm.0@, fragment_view(arm.1)));
            assert(av.take(i as int).last() == av[i - 1]);
            assert(av.take(i as int).drop_last() =~= av.take(i - 1));
        }
        match &arm.1 {
            AbstractFragment::Mapping(mapping) => {
                let ghost ev = entries_view(mapping.entries@);
                proof {
                    assert(fragment_view(arm.1) == FragmentView::Mapping(ev));
                    lemma_entries_view_len(mapping.entries@);
                }
                match find_valueless_header(&mapping.entries) {
                    Some(h) => {
                        if only_dynamic_after(&mapping.entries, h) {
                            match &mapping.entries[h].key {
                                EntryKey::Literal(name) => {
                                    let key = name.clone();
                                    proof {
                                        assert(ev[h as int].0 == mapping.entries@[h as int].key);
                                        assert(open_header_key(ev) == Some(name@));
                                    }
                                    return Some((arm.0.duplicate(), key));
                                },
                                EntryKey::Dynamic(_) => {
                                    proof {
                                        assert(valueless_header_at(ev, h as int));
                                        assert(false);
                                    }
                                },
                            }
                        } else {
                            proof {
                                assert(open_header_key(ev) is None);
                            }
                        }
                    },
                    None => {
                        proof {
                            assert(open_header_key(ev) is None);
                        }
                    },
                }
            },
            _ => {},
        }
        i -= 1;
    }
    None
}

/// Whether content `node` under `condition` continues the entry `key`
/// that an arm under `owner` left open: it runs under at least the
/// owner's conjuncts, and is a splice under a `range` condition or a
/// mapping made only of templated keys and the open header itself.
pub fn arm_continues_open_mapping_entry(
    owner: &PathCondition,
    key: &String,
    condition: &PathCondition,
    node: &AbstractFragment,
) -> (continues: bool)
    ensures
        continues == (flat_conjuncts(owner@).subset_of(flat_conjuncts(condition@)) && continues_header(
            (condition@, fragment_view(*node)),
            key@,
        )),
{
    if !predicate_is_conjunctive_subset(owner, condition) {
        return false;
    }
    node_continues_header(condition, node, key)
}

/// Split off the arms of `guarded` that continue the header `key`,
/// keeping the others in order.
pub fn take_mapping_continuation_arms(guarded: &mut Guarded<AbstractFragment>, header_key: &String) -> (taken: Guarded<AbstractFragment>)
    ensures
        arms_view(taken.arms@) == continuation_arms(arms_view(old(guarded).arms@), header_key@),
        arms_view(final(guarded).arms@) == other_arms(arms_view(old(guarded).arms@), header_key@),
{
    let ghost initial = guarded.arms@;
    let ghost n = initial.len();
    let mut source: Vec<(PathCondition, AbstractFragment)> = Vec::new();
    std::mem::swap(&mut source, &mut guarded.arms);
    let mut taken: Guarded<AbstractFragment> = Guarded::empty();
    while source.len() > 0
        invariant
            n == initial.len(),
            source@.len() <= n,
            source@ == initial.subrange(n - source@.len(), n as int),
            arms_view(taken.arms@) == continuation_arms(arms_view(initial.subrange(0, n - source@.len())), header_key@),
            arms_view(guarded.arms@) == other_arms(arms_view(initial.subrange(0, n - source@.len())), header_key@),
        decreases source@.len(),
    {
        let ghost k = n - source@.len();
        let arm = source.remove(0);
        let continues = arm_continues_header(&arm, header_key);
        proof {
            let prefix = initial.subrange(0, k);
            assert(initial.subrange(0, k + 1) =~= prefix.push(initial[k]));
            lemma_arms_view_push(prefix, initial[k]);
            let pv = arms_view(prefix.push(initial[k]));
            assert(pv.drop_last() =~= arms_view(prefix));
        }
        let ghost before_taken = taken.arms@;
        let ghost before_kept = guarded.arms@;
        if continues {
            taken.arms.push(arm);
            proof {
                lemma_arms_view_push(before_taken, arm);
            }
        } else {
            guarded.arms.push(arm);
            proof {
                lemma_arms_view_push(before_kept, arm);
            }
        }
    }
    assert(initial.subrange(0, n as int) =~= initial);
    taken
}

/// Merge every entry of `incoming` into `entries`, in order.
fn merge_entries_into(entries: &mut Vec<MappingEntry>, incoming: Vec<MappingEntry>)
    ensures
        entries_view(final(entries)@) == merge_all_view(entries_view(old(entries)@), entries_view(incoming@)),
{
    let ghost start = entries_view(entries@);
    let ghost initial = incoming@;
    let ghost n = initial.len();
    let mut source = incoming;
    while source.len() > 0
        invariant
            n == initial.len(),
            source@.len() <= n,
            source@ == initial.subrange(n - source@.len(), n as int),
            entries_view(entries@) == merge_all_view(start, entries_view(initial.subrange(0, n - source@.len()))),
        decreases source@.len(),
    {
        let ghost k = n - source@.len();
        let entry = source.remove(0);
        proof {
            let prefix = initial.subrange(0, k);
            assert(initial.subrange(0, k + 1) =~= prefix.push(initial[k]));
            lemma_entries_view_push(prefix, initial[k]);
            let pv = entries_view(prefix.push(initial[k]));
            assert(pv.drop_last() =~= entries_view(prefix));
        }
        merge_entry_into(entries, entry.key, entry.value);
    }
    assert(initial.subrange(0, n as int) =~= initial);
}

/// Drop the arms whose condition is `False`.
fn retain_satisfiable(arms: &mut Vec<(PathCondition, AbstractFragment)>)
    ensures
        arms_view(final(arms)@) == drop_false_arms(arms_view(old(arms)@)),
{
    let ghost initial = arms@;
    let ghost n = initial.len();
    let mut source: Vec<(PathCondition, AbstractFragment)> = Vec::new();
    std::mem::swap(&mut source, arms);
    while source.len() > 0
        invariant
            n == initial.len(),
            source@.len() <= n,
            source@ == initial.subrange(n - source@.len(), n as int),
            arms_view(arms@) == drop_false_arms(arms_view(initial.subrange(0, n - source@.len()))),
        decreases source@.len(),
    {
        let ghost k = n - source@.len();
        let arm = source.remove(0);
        proof {
            let prefix = initial.subrange(0, k);
            assert(initial.subrange(0, k + 1) =~= prefix.push(initial[k]));
            lemma_arms_view_push(prefix, initial[k]);
            let pv = arms_view(prefix.push(initial[k]));
            assert(pv.drop_last() =~= arms_view(prefix));
        }
        if !arm.0.is_false() {
            let ghost before = arms@;
            arms.push(arm);
            proof {
                lemma_arms_view_push(before, arm);
            }
        }
    }
    assert(initial.subrange(0, n as int) =~= initial);
}

/// Merge the entries of a mapping arm under `condition` into `entries`.
fn absorb_mapping(entries: &mut Vec<MappingEntry>, condition: &PathCondition, incoming: Vec<MappingEntry>)
    ensures
        entries_view(final(entries)@) == absorb_entries(entries_view(old(entries)@), condition@, entries_view(incoming@)),
{
    let ghost start = entries_view(entries@);
    let ghost initial = incoming@;
    let ghost n = initial.len();
    let mut source = incoming;
    while source.len() > 0
        invariant
            n == initial.len(),
            source@.len() <= n,
            source@ == initial.subrange(n - source@.len(), n as int),
            entries_view(entries@) == absorb_entries(start, condition@, entries_view(initial.subrange(0, n - source@.len()))),
        decreases source@.len(),
    {
        let ghost k = n - source@.len();
        let mut entry = source.remove(0);
        proof {
            let prefix = initial.subrange(0, k);
            assert(initial.subrange(0, k + 1) =~= prefix.push(initial[k]));
            lemma_entries_view_push(prefix, initial[k]);
            let pv = entries_view(prefix.push(initial[k]));
            assert(pv.drop_last() =~= entries_view(prefix));
        }
        let ghost before = entry.value.arms@;
        entry.value.guard_all(condition);
        proof {
            lemma_guard_all_view(before, entry.value.arms@, condition@);
        }
        retain_satisfiable(&mut entry.value.arms);
        proof {
            lemma_arms_view_len(entry.value.arms@);
        }
        if !entry.value.is_empty() {
            merge_entry_into(entries, entry.key, entry.value);
        }
    }
    assert(initial.subrange(0, n as int) =~= initial);
}

/// Append the items of a sequence arm under `condition` to `items`.
fn absorb_sequence(items: &mut Vec<Guarded<AbstractFragment>>, condition: &PathCondition, incoming: Vec<Guarded<AbstractFragment>>)
    ensures
        items_view(final(items)@) == absorb_items(items_view(old(items)@), condition@, items_view(incoming@)),
{
    let ghost start = items_view(items@);
    let ghost initial = incoming@;
    let ghost n = initial.len();
    let mut source = incoming;
    while source.len() > 0
        invariant
            n == initial.len(),
            source@.len() <= n,
            source@ == initial.subrange(n - source@.len(), n as int),
            items_view(items@) == absorb_items(start, condition@, items_view(initial.subrange(0, n - source@.len()))),
        decreases source@.len(),
    {
        let ghost k = n - source@.len();
        let mut item = source.remove(0);
        proof {
            let prefix = initial.subrange(0, k);
            assert(initial.subrange(0, k + 1) =~= prefix.push(initial[k]));
            lemma_items_view_push(prefix, initial[k]);
            let pv = items_view(prefix.push(initial[k]));
            assert(pv.drop_last() =~= items_view(prefix));
        }
        let ghost before = item.arms@;
        item.guard_all(condition);
        proof {
            lemma_guard_all_view(before, item.arms@, condition@);
        }
        retain_satisfiable(&mut item.arms);
        proof {
            lemma_arms_view_len(item.arms@);
        }
        if !item.is_empty() {
            let ghost current = items@;
            items.push(item);
            proof {
                lemma_items_view_push(current, item);
            }
        }
    }
    assert(initial.subrange(0, n as int) =~= initial);
}

/// Dissolve every arm of `guarded` into a level's entries, items and
/// values.
fn absorb_guarded(
    entries: &mut Vec<MappingEntry>,
    items: &mut Vec<Guarded<AbstractFragment>>,
    values: &mut Vec<(PathCondition, AbstractFragment)>,
    guarded: Vec<(PathCondition, AbstractFragment)>,
)
    ensures
        ({
            let level = absorb_arms(
                LevelView { entries: entries_view(old(entries)@), items: items_view(old(items)@), values: arms_view(old(values)@) },
                arms_view(guarded@),
            );
            &&& entries_view(final(entries)@) == level.entries
            &&& items_view(final(items)@) == level.items
            &&& arms_view(final(values)@) == level.values
        }),
{
    let ghost start = LevelView { entries: entries_view(entries@), items: items_view(items@), values: arms_view(values@) };
    let ghost initial = guarded@;
    let ghost n = initial.len();
    let mut source = guarded;
    while source.len() > 0
        invariant
            n == initial.len(),
            source@.len() <= n,
            source@ == initial.subrange(n - source@.len(), n as int),
            absorb_arms(start, arms_view(initial.subrange(0, n - source@.len())))
                == (LevelView { entries: entries_view(entries@), items: items_view(items@), values: arms_view(values@) }),
        decreases source@.len(),
    {
        let ghost k = n - source@.len();
        let (condition, fragment) = source.remove(0);
        proof {
            let prefix = initial.subrange(0, k);
            assert(initial.subrange(0, k + 1) =~= prefix.push(initial[k]));
            lemma_arms_view_push(prefix, initial[k]);
            let pv = arms_view(prefix.push(initial[k]));
            assert(pv.drop_last() =~= arms_view(prefix));
            assert(pv.last() == (condition@, fragment_view(fragment)));
        }
        if condition.is_false() {
            continue;
        }
        match fragment {
            AbstractFragment::Mapping(mapping) => {
                absorb_mapping(entries, &condition, mapping.entries);
            },
            AbstractFragment::Sequence(sequence) => {
                absorb_sequence(items, &condition, sequence.items);
            },
            other => {
                let ghost before = values@;
                let ghost arm = (condition, other);
                values.push((condition, other));
                proof {
                    lemma_arms_view_push(before, arm);
                }
            },
        }
    }
    assert(initial.subrange(0, n as int) =~= initial);
}

/// The last valueless literal header among `entries`.
fn find_valueless_header(entries: &Vec<MappingEntry>) -> (found: Option<usize>)
    ensures
        match found {
            Some(h) => h < entries@.len() && last_valueless_header(entries_view(entries@)) == Some(h as int),
            None => last_valueless_header(entries_view(entries@)) is None,
        },
{
    let ghost ev = entries_view(entries@);
    proof {
        lemma_entries_view_len(entries@);
    }
    let mut i: usize = entries.len();
    while i > 0
        invariant
            i <= entries@.len(),
            ev == entries_view(entries@),
            ev.len() == entries@.len(),
            forall|j: int| 0 <= j < entries@.len() ==> #[trigger] ev[j] == (entries@[j].key, arms_view(entries@[j].value.arms@)),
            forall|j: int| i <= j < ev.len() ==> !#[trigger] valueless_header_at(ev, j),
        decreases i,
    {
        i -= 1;
        let entry = &entries[i];
        proof {
            lemma_arms_view_len(entry.value.arms@);
        }
        let is_header = match &entry.key {
            EntryKey::Literal(name) => !name.as_str().is_empty() && entry.value.is_empty(),
            EntryKey::Dynamic(_) => false,
        };
        if is_header {
            proof {
                assert(valueless_header_at(ev, i as int));
                let c = choose|h: int|
                    0 <= h < ev.len() && #[trigger] valueless_header_at(ev, h) && forall|j: int|
                        h < j < ev.len() ==> !#[trigger] valueless_header_at(ev, j);
                if c < i {
                    assert(!valueless_header_at(ev, i as int));
                }
                if i < c {
                    assert(!valueless_header_at(ev, c));
                }
            }
            return Some(i);
        }
        proof {
            assert(!valueless_header_at(ev, i as int));
        }
    }
    None
}

/// Whether every entry from position `from` on has a templated key.
fn all_dynamic_from(entries: &Vec<MappingEntry>, from: usize) -> (all: bool)
    ensures
        all == forall|j: int| from <= j < entries@.len() ==> (#[trigger] entries@[j]).key is Dynamic,
{
    let mut j: usize = from;
    while j < entries.len()
        invariant
            from <= j,
            forall|q: int| from <= q < j ==> (#[trigger] entries@[q]).key is Dynamic,
        decreases entries@.len() - j,
    {
        match &entries[j].key {
            EntryKey::Literal(_) => {
                proof {
                    assert(!(entries@[j as int].key is Dynamic));
                }
                return false;
            },
            EntryKey::Dynamic(_) => {},
        }
        j += 1;
    }
    true
}

/// Take every floating output's continuation arms for `key`, dropping the
/// outputs left without an arm.
fn take_floating_continuations(floating: &mut Vec<FloatingOutput>, key: &String) -> (taken: Guarded<AbstractFragment>)
    ensures
        arms_view(taken.arms@) == floating_continuations(floatings_view(old(floating)@), key@),
        floatings_view(final(floating)@) == floating_remainders(floatings_view(old(floating)@), key@),
{
    let ghost initial = floating@;
    let ghost n = initial.len();
    let mut source: Vec<FloatingOutput> = Vec::new();
    std::mem::swap(&mut source, floating);
    let mut taken: Guarded<AbstractFragment> = Guarded::empty();
    while source.len() > 0
        invariant
            n == initial.len(),
            source@.len() <= n,
            source@ == initial.subrange(n - source@.len(), n as int),
            arms_view(taken.arms@) == floating_continuations(floatings_view(initial.subrange(0, n - source@.len())), key@),
            floatings_view(floating@) == floating_remainders(floatings_view(initial.subrange(0, n - source@.len())), key@),
        decreases source@.len(),
    {
        let ghost k = n - source@.len();
        let mut output = source.remove(0);
        proof {
            let prefix = initial.subrange(0, k);
            assert(initial.subrange(0, k + 1) =~= prefix.push(initial[k]));
            let fv = floatings_view(prefix.push(initial[k]));
            assert(fv.drop_last() =~= floatings_view(prefix));
            assert(fv.last() == floating_view(output));
        }
        let ghost before_value = output.value.arms@;
        let continued = take_mapping_continuation_arms(&mut output.value, key);
        let ghost before_taken = taken.arms@;
        taken.extend(continued);
        proof {
            lemma_arms_view_concat(before_taken, continued.arms@);
            lemma_arms_view_len(output.value.arms@);
        }
        if !output.value.is_empty() {
            let ghost current = floating@;
            floating.push(output);
            proof {
                assert(floatings_view(floating@) =~= floatings_view(current).push(floating_view(output)));
            }
        }
    }
    assert(initial.subrange(0, n as int) =~= initial);
    taken
}

impl Contributions {
    /// Nothing contributed.
    pub fn new() -> (c: Self)
        ensures
            c.entries@.len() == 0,
            c.items@.len() == 0,
            c.values.arms@.len() == 0,
            c.floating@.len() == 0,
            c.loop_control.breaks@.len() == 0,
            c.loop_control.continues@.len() == 0,
    {
        Contributions {
            entries: Vec::new(),
            items: Vec::new(),
            values: Guarded::empty(),
            floating: Vec::new(),
            loop_control: LoopControl { breaks: Vec::new(), continues: Vec::new() },
        }
    }

    /// Add one entry: a literal key already present gains the value's arms
    /// on its first entry; any other key is appended.
    pub fn merge_entry(&mut self, key: EntryKey, value: Guarded<AbstractFragment>)
        ensures
            entries_view(final(self).entries@) == merge_entry_view(
                entries_view(old(self).entries@),
                key,
                arms_view(value.arms@),
            ),
            final(self).items == old(self).items,
            final(self).values == old(self).values,
            final(self).floating == old(self).floating,
            final(self).loop_control == old(self).loop_control,
    {
        merge_entry_into(&mut self.entries, key, value);
    }

    /// Add one standalone value arm.
    pub fn push_value_arm(&mut self, arm: (PathCondition, AbstractFragment))
        ensures
            final(self).values.arms@ == old(self).values.arms@.push(arm),
            final(self).entries == old(self).entries,
            final(self).items == old(self).items,
            final(self).floating == old(self).floating,
            final(self).loop_control == old(self).loop_control,
    {
        self.values.arms.push(arm);
    }

    /// Move the loop exits out, leaving none.
    pub fn take_loop_control(&mut self) -> (taken: LoopControl)
        ensures
            taken == old(self).loop_control,
            final(self).loop_control.breaks@.len() == 0,
            final(self).loop_control.continues@.len() == 0,
            final(self).entries == old(self).entries,
            final(self).items == old(self).items,
            final(self).values == old(self).values,
            final(self).floating == old(self).floating,
    {
        let mut taken = LoopControl { breaks: Vec::new(), continues: Vec::new() };
        std::mem::swap(&mut taken, &mut self.loop_control);
        taken
    }

    /// Conjoin a dissolving region's branch condition onto everything this
    /// level contributed; items and floating outputs left with no arm are
    /// dropped.
    pub fn guard_all(&mut self, condition: &PathCondition)
        ensures
            entries_view(final(self).entries@) == guard_entries_view(condition@, entries_view(old(self).entries@)),
            items_view(final(self).items@) == guard_items_view(condition@, items_view(old(self).items@)),
            arms_view(final(self).values.arms@) == guard_arms_view(condition@, arms_view(old(self).values.arms@)),
            floatings_view(final(self).floating@) == guard_floatings_view(
                condition@,
                floatings_view(old(self).floating@),
            ),
            outcomes_view(final(self).loop_control.breaks@) == guard_outcomes_view(
                condition@,
                outcomes_view(old(self).loop_control.breaks@),
            ),
            outcomes_view(final(self).loop_control.continues@) == guard_outcomes_view(
                condition@,
                outcomes_view(old(self).loop_control.continues@),
            ),
    {
        guard_entries(&mut self.entries, condition);
        guard_items(&mut self.items, condition);
        let ghost before_values = self.values.arms@;
        self.values.guard_all(condition);
        proof {
            lemma_guard_all_view(before_values, self.values.arms@, condition@);
        }
        guard_floatings(&mut self.floating, condition);
        self.loop_control.guard_all(condition);
    }

    /// Absorb another level's contributions after this level's: its
    /// entries merge one by one, everything else is appended.
    pub fn extend(&mut self, other: Self)
        ensures
            entries_view(final(self).entries@) == merge_all_view(
                entries_view(old(self).entries@),
                entries_view(other.entries@),
            ),
            final(self).items@ == old(self).items@ + other.items@,
            final(self).values.arms@ == old(self).values.arms@ + other.values.arms@,
            final(self).floating@ == old(self).floating@ + other.floating@,
            final(self).loop_control.breaks@ == old(self).loop_control.breaks@ + other.loop_control.breaks@,
            final(self).loop_control.continues@ == old(self).loop_control.continues@
                + other.loop_control.continues@,
    {
        let Contributions { entries: other_entries, items: mut other_items, values: other_values, floating: mut other_floating, loop_control: other_loop } = other;
        merge_entries_into(&mut self.entries, other_entries);
        self.items.append(&mut other_items);
        self.values.extend(other_values);
        self.floating.append(&mut other_floating);
        self.loop_control.extend(other_loop);
    }

    /// Split off the floating output that renders inside a container of
    /// the given indent as one guarded value; shallower output keeps
    /// floating for an ancestor.
    pub fn take_floating_below(
        &mut self,
        container_indent: usize,
        accepts_same_indent: bool,
        marked_at: Option<usize>,
        content_at: Option<usize>,
    ) -> (attached: Guarded<AbstractFragment>)
        ensures
            arms_view(attached.arms@) == floating_arms(
                attached_floatings(floatings_view(old(self).floating@), container_indent, accepts_same_indent, marked_at, content_at),
            ),
            floatings_view(final(self).floating@) == kept_floatings(
                floatings_view(old(self).floating@),
                container_indent,
                accepts_same_indent,
                marked_at,
                content_at,
            ),
            final(self).entries == old(self).entries,
            final(self).items == old(self).items,
            final(self).values == old(self).values,
            final(self).loop_control == old(self).loop_control,
    {
        let ghost initial = self.floating@;
        let ghost n = initial.len();
        let mut source: Vec<FloatingOutput> = Vec::new();
        std::mem::swap(&mut source, &mut self.floating);
        let mut attached: Guarded<AbstractFragment> = Guarded::empty();
        let mut keep: Vec<FloatingOutput> = Vec::new();
        while source.len() > 0
            invariant
                n == initial.len(),
                source@.len() <= n,
                source@ == initial.subrange(n - source@.len(), n as int),
                arms_view(attached.arms@) == floating_arms(
                    attached_floatings(floatings_view(initial.subrange(0, n - source@.len())), container_indent, accepts_same_indent, marked_at, content_at),
                ),
                floatings_view(keep@) == kept_floatings(
                    floatings_view(initial.subrange(0, n - source@.len())),
                    container_indent,
                    accepts_same_indent,
                    marked_at,
                    content_at,
                ),
            decreases source@.len(),
        {
            let ghost k = n - source@.len();
            let floating = source.remove(0);
            let same_indent_ok = if floating.column_only {
                accepts_same_indent && match content_at {
                    Some(at) => at >= floating.origin,
                    None => true,
                }
            } else {
                floating.width == container_indent && accepts_same_indent && match marked_at {
                    Some(marked) => marked >= floating.origin,
                    None => true,
                }
            };
            proof {
                let prefix = initial.subrange(0, k);
                assert(initial.subrange(0, k + 1) =~= prefix.push(initial[k]));
                let fv = floatings_view(prefix.push(initial[k]));
                assert(fv.drop_last() =~= floatings_view(prefix));
                assert(fv.last() == floating_view(floating));
                let a = attached_floatings(floatings_view(prefix), container_indent, accepts_same_indent, marked_at, content_at);
                assert(a.push(fv.last()).drop_last() =~= a);
            }
            if floating.width > container_indent || same_indent_ok {
                let ghost before = attached.arms@;
                attached.extend(floating.value);
                proof {
                    lemma_arms_view_concat(before, floating.value.arms@);
                }
            } else {
                let ghost before = keep@;
                keep.push(floating);
                proof {
                    assert(floatings_view(keep@) =~= floatings_view(before).push(floating_view(floating)));
                }
            }
        }
        assert(initial.subrange(0, n as int) =~= initial);
        self.floating = keep;
        attached
    }

    /// Dissolve a guarded fragment into this level: every satisfiable arm
    /// contributes its mapping entries, sequence items, or itself as a
    /// standalone value, under its own condition.
    pub fn extend_guarded_fragment(&mut self, guarded: Guarded<AbstractFragment>)
        ensures
            ({
                let level = absorb_arms(
                    LevelView {
                        entries: entries_view(old(self).entries@),
                        items: items_view(old(self).items@),
                        values: arms_view(old(self).values.arms@),
                    },
                    arms_view(guarded.arms@),
                );
                &&& entries_view(final(self).entries@) == level.entries
                &&& items_view(final(self).items@) == level.items
                &&& arms_view(final(self).values.arms@) == level.values
            }),
            final(self).floating == old(self).floating,
            final(self).loop_control == old(self).loop_control,
    {
        absorb_guarded(&mut self.entries, &mut self.items, &mut self.values.arms, guarded.arms);
    }

    /// A mapping header written without a value (`annotations:`) followed
    /// only by templated-key entries takes those entries, and the range
    /// splices and header-continuing mappings among the values and floating
    /// output, as its own value.
    pub fn repair_valueless_mapping_header(&mut self)
        ensures
            final(self).items == old(self).items,
            final(self).loop_control == old(self).loop_control,
            ({
                let ev = entries_view(old(self).entries@);
                let values = arms_view(old(self).values.arms@);
                let fs = floatings_view(old(self).floating@);
                match last_valueless_header(ev) {
                    None => final(self).entries == old(self).entries && final(self).values == old(self).values
                        && final(self).floating == old(self).floating,
                    Some(h) => {
                        let key = literal_name(ev[h].0)->0;
                        let dynamic = ev.subrange(h + 1, ev.len() as int);
                        let continued = continuation_arms(values, key) + floating_continuations(fs, key);
                        if !(forall|j: int| h < j < ev.len() ==> (#[trigger] ev[j]).0 is Dynamic) {
                            final(self).entries == old(self).entries && final(self).values == old(self).values
                                && final(self).floating == old(self).floating
                        } else {
                            &&& arms_view(final(self).values.arms@) == other_arms(values, key)
                            &&& floatings_view(final(self).floating@) == floating_remainders(fs, key)
                            &&& entries_view(final(self).entries@) == if dynamic.len() == 0 && continued.len() == 0 {
                                ev
                            } else {
                                ev.subrange(0, h).push(
                                    (
                                        ev[h].0,
                                        continued + if dynamic.len() > 0 {
                                            seq![(PredicateView::True, FragmentView::Mapping(dynamic))]
                                        } else {
                                            Seq::empty()
                                        },
                                    ),
                                )
                            }
                        }
                    },
                }
            }),
    {
        let ghost initial = self.entries@;
        let ghost ev = entries_view(initial);
        proof {
            lemma_entries_view_len(initial);
        }
        let header_index = match find_valueless_header(&self.entries) {
            Some(h) => h,
            None => {
                return ;
            },
        };
        let header_key = match &self.entries[header_index].key {
            EntryKey::Literal(name) => name.clone(),
            EntryKey::Dynamic(_) => {
                return ;
            },
        };
        proof {
            assert(valueless_header_at(ev, header_index as int));
            assert(literal_name(ev[header_index as int].0) == Some(header_key@));
        }
        assert(header_index < self.entries.len());
        if !all_dynamic_from(&self.entries, header_index + 1) {
            proof {
                let q = choose|q: int| header_index + 1 <= q < initial.len() && (#[trigger] initial[q]).key !is Dynamic;
                assert(ev[q].0 == initial[q].key);
            }
            return ;
        }
        proof {
            assert forall|j: int| header_index < j < ev.len() implies (#[trigger] ev[j]).0 is Dynamic by {
                assert(ev[j].0 == initial[j].key);
            }
        }
        let dynamic_entries = self.entries.split_off(header_index + 1);
        let ghost values_before = self.values.arms@;
        let mut continued_values = take_mapping_continuation_arms(&mut self.values, &header_key);
        let from_floating = take_floating_continuations(&mut self.floating, &header_key);
        let ghost cv = continued_values.arms@;
        continued_values.extend(from_floating);
        proof {
            lemma_arms_view_concat(cv, from_floating.arms@);
            lemma_arms_view_len(continued_values.arms@);
            lemma_entries_view_len(dynamic_entries@);
            assert(dynamic_entries@ == initial.subrange(header_index + 1, initial.len() as int));
            lemma_entries_view_ext(dynamic_entries@, ev.subrange(header_index + 1, ev.len() as int));
        }
        if dynamic_entries.len() == 0 && continued_values.is_empty() {
            proof {
                assert(self.entries@ =~= initial);
            }
            return ;
        }
        let mut header = self.entries.pop().unwrap();
        let ghost header_arms = header.value.arms@;
        proof {
            assert(header == initial[header_index as int]);
            lemma_arms_view_len(header_arms);
            assert(header_arms.len() == 0);
        }
        let ghost continued_arms = continued_values.arms@;
        header.value.extend(continued_values);
        let has_dynamic = dynamic_entries.len() > 0;
        let ghost tail = if has_dynamic {
            seq![(PredicateView::True, FragmentView::Mapping(entries_view(dynamic_entries@)))]
        } else {
            Seq::empty()
        };
        proof {
            lemma_arms_view_concat(header_arms, continued_arms);
            assert(header_arms + continued_arms =~= continued_arms);
        }
        if has_dynamic {
            let arm = (Predicate::True, AbstractFragment::Mapping(Mapping { entries: dynamic_entries }));
            let ghost before = header.value.arms@;
            header.value.arms.push(arm);
            proof {
                lemma_arms_view_push(before, arm);
            }
        }
        let ghost prefix = self.entries@;
        proof {
            if has_dynamic {
                assert(arms_view(header.value.arms@) == arms_view(continued_arms) + tail);
            } else {
                assert(arms_view(continued_arms) + tail =~= arms_view(continued_arms));
                assert(arms_view(header.value.arms@) == arms_view(continued_arms) + tail);
            }
            assert(header.key == ev[header_index as int].0);
        }
        self.entries.push(header);
        proof {
            lemma_entries_view_push(prefix, header);
            assert(prefix =~= initial.subrange(0, header_index as int));
            lemma_entries_view_len(prefix);
            lemma_entries_view_ext(prefix, ev.subrange(0, header_index as int));
            assert(entries_view(self.entries@) == ev.subrange(0, header_index as int).push(
                (ev[header_index as int].0, arms_view(continued_arms) + tail),
            ));
        }
    }

    /// The level's contributions as one guarded value: a mapping arm for
    /// the entries, a sequence arm for the items (both unconditional and
    /// only when present), then the standalone values, then floating output
    /// that never found a shallower container.
    pub fn assemble(self) -> (assembled: Guarded<AbstractFragment>)
        ensures
            arms_view(assembled.arms@) == (if self.entries@.len() > 0 {
                seq![(PredicateView::True, FragmentView::Mapping(entries_view(self.entries@)))]
            } else {
                Seq::empty()
            }) + (if self.items@.len() > 0 {
                seq![(PredicateView::True, FragmentView::Sequence(items_view(self.items@)))]
            } else {
                Seq::empty()
            }) + arms_view(self.values.arms@) + floating_arms(floatings_view(self.floating@)),
    {
        let ghost entries = self.entries@;
        let ghost items = self.items@;
        let ghost values = self.values.arms@;
        let ghost floats = self.floating@;
        let mut out: Guarded<AbstractFragment> = Guarded::empty();
        let Contributions { entries: own_entries, items: own_items, values: own_values, floating: own_floating, loop_control: _ } = self;
        if own_entries.len() > 0 {
            let arm = (Predicate::True, AbstractFragment::Mapping(Mapping { entries: own_entries }));
            let ghost before = out.arms@;
            out.arms.push(arm);
            proof {
                lemma_arms_view_push(before, arm);
            }
        }
        if own_items.len() > 0 {
            let arm = (Predicate::True, AbstractFragment::Sequence(Sequence { items: own_items }));
            let ghost before = out.arms@;
            out.arms.push(arm);
            proof {
                lemma_arms_view_push(before, arm);
            }
        }
        let ghost before_values = out.arms@;
        out.extend(own_values);
        proof {
            lemma_arms_view_concat(before_values, values);
        }
        let ghost head = arms_view(out.arms@);
        let mut floating_source = own_floating;
        let ghost nf = floats.len();
        while floating_source.len() > 0
            invariant
                nf == floats.len(),
                floating_source@.len() <= nf,
                floating_source@ == floats.subrange(nf - floating_source@.len(), nf as int),
                arms_view(out.arms@) == head + floating_arms(floatings_view(floats.subrange(0, nf - floating_source@.len()))),
            decreases floating_source@.len(),
        {
            let ghost k = nf - floating_source@.len();
            let floating = floating_source.remove(0);
            let ghost before = out.arms@;
            out.extend(floating.value);
            proof {
                lemma_arms_view_concat(before, floating.value.arms@);
                let prefix = floats.subrange(0, k);
                assert(floats.subrange(0, k + 1) =~= prefix.push(floats[k]));
                let fv = floatings_view(prefix.push(floats[k]));
                assert(fv.drop_last() =~= floatings_view(prefix));
                assert(fv.last() == floating_view(floats[k]));
                assert(head + floating_arms(floatings_view(prefix)) + arms_view(floating.value.arms@)
                    =~= head + (floating_arms(floatings_view(prefix)) + arms_view(floating.value.arms@)));
            }
        }
        assert(floats.subrange(0, nf as int) =~= floats);
        out
    }
}

} // verus!
