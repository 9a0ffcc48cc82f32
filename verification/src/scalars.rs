//! Scalar runs: the segments a templated scalar splits into, the hole that
//! stands for a whole value, and the combination of per-segment scalar arms
//! into the arms of the whole run.

use vstd::prelude::*;

use crate::domain::{
    and_conditions, duplicate_parts, same_part, same_parts, PathCondition, StringPart, TaintPart,
};
use crate::predicate::{and_view, Predicate, PredicateView};
use crate::syntax::Span;
use crate::text::{chars_of, is_whitespace, is_ws};

verus! {

/// One segment of a scalar run: literal text, a template hole, or an
/// inline control region folded into one piece.
#[derive(Debug)]
pub enum Segment {
    Text(String),
    Hole(Span),
    Region(Span),
}

/// Whether every character of `s` is whitespace (so `s` trims to nothing).
pub open spec fn is_blank(s: Seq<char>) -> bool {
    forall|i: int| 0 <= i < s.len() ==> is_ws(#[trigger] s[i])
}

/// Whether a segment is literal text that trims to nothing.
pub open spec fn blank_text(segment: Segment) -> bool {
    match segment {
        Segment::Text(text) => is_blank(text@),
        _ => false,
    }
}

/// Whether the hole at `k` covers the whole run: every other segment is
/// blank text.
pub open spec fn covers_run(segments: Seq<Segment>, k: int) -> bool {
    &&& 0 <= k < segments.len()
    &&& segments[k] is Hole
    &&& forall|i: int| 0 <= i < segments.len() && i != k ==> #[trigger] blank_text(segments[i])
}

/// The span of the hole that stands for the whole run, if there is one.
pub open spec fn entire_hole(segments: Seq<Segment>) -> Option<Span> {
    if exists|k: int| covers_run(segments, k) {
        let k = choose|k: int| covers_run(segments, k);
        Some(segments[k]->Hole_0)
    } else {
        None
    }
}

/// At most one hole covers a run.
pub proof fn lemma_covering_hole_unique(segments: Seq<Segment>, k: int, j: int)
    requires
        covers_run(segments, k),
        covers_run(segments, j),
    ensures
        k == j,
{
    if k != j {
        assert(blank_text(segments[j]));
    }
}

/// Whether `text` trims to nothing.
fn text_is_blank(text: &String) -> (blank: bool)
    ensures
        blank == is_blank(text@),
{
    let chars = chars_of(text.as_str());
    let mut i: usize = 0;
    while i < chars.len()
        invariant
            chars@ == text@,
            i <= chars@.len(),
            forall|j: int| 0 <= j < i ==> is_ws(#[trigger] chars@[j]),
        decreases chars@.len() - i,
    {
        if !is_whitespace(chars[i]) {
            return false;
        }
        i += 1;
    }
    true
}

/// The single hole of a scalar run that covers the entire value, or `None`
/// when literal text makes the hole a partial scalar, when the run holds
/// an inline region, or when it holds no hole or more than one.
pub fn entire_hole_span(segments: &[Segment]) -> (hole: Option<Span>)
    ensures
        hole == entire_hole(segments@),
{
    let mut hole: Option<Span> = None;
    let ghost mut at: int = -1;
    let mut blank = true;
    let mut i: usize = 0;
    while i < segments.len()
        invariant
            i <= segments@.len(),
            hole is None <==> at == -1,
            hole is None ==> forall|j: int| 0 <= j < i ==> (#[trigger] segments@[j]) is Text,
            hole is Some ==> 0 <= at < i && segments@[at] == Segment::Hole(hole->0),
            hole is Some ==> forall|j: int| 0 <= j < i && j != at ==> (#[trigger] segments@[j]) is Text,
            blank <==> forall|j: int| 0 <= j < i && (#[trigger] segments@[j]) is Text ==> blank_text(segments@[j]),
        decreases segments@.len() - i,
    {
        match &segments[i] {
            Segment::Region(_) => {
                proof {
                    assert forall|k: int| !covers_run(segments@, k) by {
                        if covers_run(segments@, k) && k != i {
                            assert(blank_text(segments@[i as int]));
                        }
                    }
                }
                return None;
            },
            Segment::Hole(span) => {
                if hole.is_some() {
                    proof {
                        assert forall|k: int| !covers_run(segments@, k) by {
                            if covers_run(segments@, k) {
                                if k != i {
                                    assert(blank_text(segments@[i as int]));
                                } else {
                                    assert(blank_text(segments@[at]));
                                }
                            }
                        }
                    }
                    return None;
                }
                hole = Some(*span);
                proof {
                    at = i as int;
                }
            },
            Segment::Text(text) => {
                if !text_is_blank(text) {
                    blank = false;
                }
            },
        }
        i += 1;
    }
    match hole {
        None => {
            proof {
                assert forall|k: int| !covers_run(segments@, k) by {
                    if covers_run(segments@, k) {
                        assert(segments@[k] is Text);
                    }
                }
            }
            None
        },
        Some(span) => {
            if blank {
                proof {
                    assert(covers_run(segments@, at));
                    let k = choose|k: int| covers_run(segments@, k);
                    lemma_covering_hole_unique(segments@, k, at);
                }
                Some(span)
            } else {
                proof {
                    assert forall|k: int| !covers_run(segments@, k) by {
                        if covers_run(segments@, k) {
                            if k != at {
                                assert(blank_text(segments@[at]));
                            } else {
                                let j = choose|j: int|
                                    0 <= j < i && (#[trigger] segments@[j]) is Text && !blank_text(segments@[j]);
                                assert(j != at);
                            }
                        }
                    }
                }
                None
            }
        },
    }
}

// ---------------------------------------------------------------------
// Combining the arms of consecutive segments
// ---------------------------------------------------------------------

/// Bound on *correlated* guarded-arm fan-out (cross-segment products) when
/// lowering scalar alternatives. Beyond the cap the product degrades to
/// per-arm contributions that keep their own conditions (correlation is
/// dropped, conditions are not).
pub const MAX_SCALAR_ARMS: usize = 8;

/// Hard bound on total guarded arms per scalar hole. Beyond it the
/// alternatives collapse into one unconditional contribution-set arm
/// (conditions dropped, parts kept) so pathological templates stay bounded.
pub const MAX_SCALAR_ARM_FANOUT: usize = 64;

/// The parts of all arms, arm after arm.
pub open spec fn flat_parts(arms: Seq<(PathCondition, Vec<StringPart>)>) -> Seq<StringPart>
    decreases arms.len(),
{
    if arms.len() == 0 {
        Seq::empty()
    } else {
        flat_parts(arms.drop_last()) + arms.last().1@
    }
}

/// Whether `arm` is the product of a base arm and a segment arm: their
/// conditions conjoined, and a copy of the base parts followed by a copy of
/// the segment parts.
pub open spec fn product_arm(
    arm: (PathCondition, Vec<StringPart>),
    base: (PathCondition, Vec<StringPart>),
    segment: (PathCondition, Vec<StringPart>),
) -> bool {
    &&& arm.0@ == and_view(base.0@, segment.0@)
    &&& same_parts(arm.1@, base.1@ + segment.1@)
}

proof fn lemma_same_parts_concat(a: Seq<StringPart>, b: Seq<StringPart>, c: Seq<StringPart>, d: Seq<StringPart>)
    requires
        same_parts(a, c),
        same_parts(b, d),
    ensures
        same_parts(a + b, c + d),
{
    assert forall|i: int| 0 <= i < (a + b).len() implies same_part(#[trigger] (a + b)[i], (c + d)[i]) by {
        if i >= a.len() {
            assert(same_part(b[i - a.len()], d[i - a.len()]));
        } else {
            assert(same_part(a[i], c[i]));
        }
    }
}

proof fn lemma_row_major(i: int, j: int, row: int, column: int, width: int)
    by (nonlinear_arith)
    requires
        0 <= row < i,
        0 <= column < width,
        0 <= j,
    ensures
        row * width + column < i * width + j,
{
}

proof fn lemma_next_row(i: int, width: int)
    by (nonlinear_arith)
    ensures
        (i + 1) * width == i * width + width,
{
}

/// The parts of all arms, arm after arm, moved out of the arms.
fn flatten_parts(arms: Vec<(PathCondition, Vec<StringPart>)>) -> (parts: Vec<StringPart>)
    ensures
        parts@ == flat_parts(arms@),
{
    let ghost initial = arms@;
    let ghost n = initial.len();
    let mut parts: Vec<StringPart> = Vec::new();
    let mut source = arms;
    while source.len() > 0
        invariant
            n == initial.len(),
            source@.len() <= n,
            source@ == initial.subrange(n - source@.len(), n as int),
            parts@ == flat_parts(initial.subrange(0, n - source@.len())),
        decreases source@.len(),
    {
        let ghost k = n - source@.len();
        let (_, mut arm_parts) = source.remove(0);
        parts.append(&mut arm_parts);
        proof {
            assert(initial.subrange(0, k + 1).drop_last() =~= initial.subrange(0, k));
        }
    }
    assert(initial.subrange(0, n as int) =~= initial);
    parts
}

/// Combine the arms of the run so far with the arms of the next segment.
///
/// An empty segment leaves the run as it is. While the product stays within
/// [`MAX_SCALAR_ARMS`], every base arm pairs with every segment arm, base
/// arms outermost. Past that bound the segment arms are appended after the
/// base arms, each keeping its own condition; and past
/// [`MAX_SCALAR_ARM_FANOUT`] arms all parts collapse into one unconditional
/// arm.
pub fn combine_scalar_arms(
    base: Vec<(PathCondition, Vec<StringPart>)>,
    segment: Vec<(PathCondition, Vec<StringPart>)>,
) -> (combined: Vec<(PathCondition, Vec<StringPart>)>)
    ensures
        segment@.len() == 0 ==> combined@ == base@,
        segment@.len() > 0 && base@.len() * segment@.len() <= MAX_SCALAR_ARMS ==> {
            &&& combined@.len() == base@.len() * segment@.len()
            &&& forall|i: int, j: int|
                #![trigger base@[i], segment@[j]]
                0 <= i < base@.len() && 0 <= j < segment@.len() ==> product_arm(
                    combined@[i * segment@.len() + j],
                    base@[i],
                    segment@[j],
                )
        },
        segment@.len() > 0 && base@.len() * segment@.len() > MAX_SCALAR_ARMS && base@.len()
            + segment@.len() <= MAX_SCALAR_ARM_FANOUT ==> combined@ == base@ + segment@,
        segment@.len() > 0 && base@.len() * segment@.len() > MAX_SCALAR_ARMS && base@.len()
            + segment@.len() > MAX_SCALAR_ARM_FANOUT ==> {
            &&& combined@.len() == 1
            &&& combined@[0].0@ == PredicateView::True
            &&& combined@[0].1@ == flat_parts(base@ + segment@)
        },
{
    if segment.len() == 0 {
        return base;
    }
    let correlated = match base.len().checked_mul(segment.len()) {
        Some(product) => product <= MAX_SCALAR_ARMS,
        None => false,
    };
    if !correlated {
        let mut arms = base;
        let mut rest = segment;
        arms.append(&mut rest);
        if arms.len() > MAX_SCALAR_ARM_FANOUT {
            let parts = flatten_parts(arms);
            let mut single: Vec<(PathCondition, Vec<StringPart>)> = Vec::new();
            single.push((Predicate::True, parts));
            return single;
        }
        return arms;
    }
    let ghost n = base@.len();
    let ghost m = segment@.len();
    let mut out: Vec<(PathCondition, Vec<StringPart>)> = Vec::new();
    let mut i: usize = 0;
    while i < base.len()
        invariant
            n == base@.len(),
            m == segment@.len(),
            m > 0,
            n * m <= MAX_SCALAR_ARMS,
            i <= n,
            out@.len() == i * m,
            forall|row: int, column: int|
                #![trigger base@[row], segment@[column]]
                0 <= row < i && 0 <= column < m ==> product_arm(
                    out@[row * m + column],
                    base@[row],
                    segment@[column],
                ),
        decreases n - i,
    {
        let mut j: usize = 0;
        while j < segment.len()
            invariant
                n == base@.len(),
                m == segment@.len(),
                i < n,
                j <= m,
                out@.len() == i * m + j,
                forall|row: int, column: int|
                    #![trigger base@[row], segment@[column]]
                    0 <= row < i && 0 <= column < m ==> product_arm(
                        out@[row * m + column],
                        base@[row],
                        segment@[column],
                    ),
                forall|column: int|
                    #![trigger segment@[column]]
                    0 <= column < j ==> product_arm(
                        out@[i * m + column],
                        base@[i as int],
                        segment@[column],
                    ),
            decreases m - j,
        {
            let mut parts = duplicate_parts(&base[i].1);
            let mut tail = duplicate_parts(&segment[j].1);
            proof {
                lemma_same_parts_concat(parts@, tail@, base@[i as int].1@, segment@[j as int].1@);
            }
            parts.append(&mut tail);
            let condition = and_conditions(base[i].0.duplicate(), segment[j].0.duplicate());
            let ghost before = out@;
            out.push((condition, parts));
            proof {
                assert forall|row: int, column: int|
                    #![trigger base@[row], segment@[column]]
                    0 <= row < i && 0 <= column < m implies product_arm(
                        out@[row * m + column],
                        base@[row],
                        segment@[column],
                    ) by {
                    lemma_row_major(i as int, j as int, row, column, m as int);
                    assert(out@[row * m + column] == before[row * m + column]);
                }
                assert forall|column: int|
                    #![trigger segment@[column]]
                    0 <= column < j + 1 implies product_arm(
                        out@[i * m + column],
                        base@[i as int],
                        segment@[column],
                    ) by {
                    if column < j {
                        assert(out@[i * m + column] == before[i * m + column]);
                    }
                }
            }
            j += 1;
        }
        proof {
            lemma_next_row(i as int, m as int);
            assert forall|row: int, column: int|
                #![trigger base@[row], segment@[column]]
                0 <= row < i + 1 && 0 <= column < m implies product_arm(
                    out@[row * m + column],
                    base@[row],
                    segment@[column],
                ) by {
                if row == i {
                    assert(segment@[column] == segment@[column]);
                }
            }
        }
        i += 1;
    }
    out
}

/// The arms of a scalar whose text is unknown and attributed to no path:
/// one unconditional arm holding one empty taint part.
pub fn unknown_scalar_arms() -> (arms: Vec<(PathCondition, Vec<StringPart>)>)
    ensures
        arms@.len() == 1,
        arms@[0].0@ == PredicateView::True,
        arms@[0].1@.len() == 1,
        arms@[0].1@[0] matches StringPart::Taint(taint) && taint.paths@.len() == 0
            && !taint.json_serialized && taint.site is None && taint.provenance@.len() == 0,
{
    let mut parts: Vec<StringPart> = Vec::new();
    parts.push(StringPart::Taint(TaintPart::new(Vec::new())));
    let mut arms: Vec<(PathCondition, Vec<StringPart>)> = Vec::new();
    arms.push((Predicate::True, parts));
    arms
}

} // verus!
