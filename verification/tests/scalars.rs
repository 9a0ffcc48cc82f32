use std::rc::Rc;

use lib::conditions::predicates_equal;
use lib::domain::{
    and_conditions, duplicate_parts, ContractProvenance, ResourceRef, SiteFacts, Splice,
    StringPart, TaintPart, ValueKind,
};
use lib::predicate::{Guard, GuardKind, Predicate};
use lib::scalars::{
    combine_scalar_arms, entire_hole_span, unknown_scalar_arms, Segment, MAX_SCALAR_ARMS,
    MAX_SCALAR_ARM_FANOUT,
};
use lib::syntax::Span;

fn truthy(path: u64) -> Predicate {
    Predicate::Guard(Guard { kind: GuardKind::Truthy, path })
}

fn text(s: &str) -> StringPart {
    StringPart::Text(vec![s.to_string()])
}

fn text_of(part: &StringPart) -> String {
    match part {
        StringPart::Text(alternatives) => alternatives.join("|"),
        StringPart::Splice(splice) => format!("<{}>", splice.values_path),
        StringPart::Taint(taint) => format!("?{}", taint.paths.join(",")),
    }
}

fn rendered(parts: &[StringPart]) -> String {
    parts.iter().map(text_of).collect::<Vec<_>>().join("")
}

fn arm(condition: Predicate, parts: Vec<StringPart>) -> (Predicate, Vec<StringPart>) {
    (condition, parts)
}

fn hole(start: usize, end: usize) -> Segment {
    Segment::Hole(Span { start, end })
}

#[test]
fn a_lone_hole_covers_the_value() {
    let segments = vec![hole(3, 9)];
    assert_eq!(entire_hole_span(&segments), Some(Span { start: 3, end: 9 }));
}

#[test]
fn blank_text_around_a_hole_still_covers_the_value() {
    let segments = vec![
        Segment::Text("  ".to_string()),
        hole(5, 12),
        Segment::Text("\t\n".to_string()),
        Segment::Text(String::new()),
    ];
    assert_eq!(entire_hole_span(&segments), Some(Span { start: 5, end: 12 }));
}

#[test]
fn literal_text_makes_the_hole_partial() {
    let before = vec![Segment::Text("prefix-".to_string()), hole(7, 20)];
    assert_eq!(entire_hole_span(&before), None);
    let after = vec![hole(0, 10), Segment::Text(" x".to_string())];
    assert_eq!(entire_hole_span(&after), None);
}

#[test]
fn regions_and_repeated_holes_have_no_entire_hole() {
    assert_eq!(entire_hole_span(&[]), None);
    assert_eq!(entire_hole_span(&[Segment::Text("   ".to_string())]), None);
    assert_eq!(entire_hole_span(&[hole(0, 4), hole(4, 8)]), None);
    assert_eq!(entire_hole_span(&[hole(0, 4), Segment::Region(Span { start: 4, end: 30 })]), None);
    assert_eq!(entire_hole_span(&[Segment::Region(Span { start: 0, end: 3 })]), None);
}

#[test]
fn an_empty_segment_leaves_the_run_unchanged() {
    let base = vec![arm(truthy(1), vec![text("a")]), arm(truthy(2), vec![text("b")])];
    let combined = combine_scalar_arms(base, Vec::new());
    assert_eq!(combined.len(), 2);
    assert!(predicates_equal(&combined[0].0, &truthy(1)));
    assert_eq!(rendered(&combined[1].1), "b");
}

#[test]
fn small_runs_pair_every_base_arm_with_every_segment_arm() {
    let base = vec![arm(truthy(1), vec![text("a")]), arm(truthy(2), vec![text("b")])];
    let segment = vec![
        arm(Predicate::True, vec![text("-x")]),
        arm(truthy(3), vec![text("-y"), text("!")]),
    ];
    let combined = combine_scalar_arms(base, segment);
    let texts: Vec<String> = combined.iter().map(|(_, parts)| rendered(parts)).collect();
    assert_eq!(texts, vec!["a-x", "a-y!", "b-x", "b-y!"]);
    assert!(predicates_equal(&combined[0].0, &truthy(1)));
    let expected = and_conditions(truthy(1), truthy(3));
    assert!(predicates_equal(&combined[1].0, &expected));
    assert!(predicates_equal(&combined[1].0, &Predicate::And(vec![truthy(1), truthy(3)])));
    assert!(predicates_equal(&combined[2].0, &truthy(2)));
    assert!(predicates_equal(&combined[3].0, &Predicate::And(vec![truthy(2), truthy(3)])));
}

#[test]
fn the_product_bound_is_inclusive() {
    let base: Vec<_> = (0..2u64).map(|i| arm(truthy(i), vec![text("b")])).collect();
    let segment: Vec<_> = (0..4u64).map(|i| arm(truthy(10 + i), vec![text("s")])).collect();
    assert_eq!(base.len() * segment.len(), MAX_SCALAR_ARMS);
    let combined = combine_scalar_arms(base, segment);
    assert_eq!(combined.len(), 8);
    assert!(combined.iter().all(|(_, parts)| rendered(parts) == "bs"));
}

#[test]
fn past_the_product_bound_segment_arms_follow_base_arms() {
    let base: Vec<_> = (0..3u64).map(|i| arm(truthy(i), vec![text(&format!("b{i}"))])).collect();
    let segment: Vec<_> = (0..3u64).map(|i| arm(truthy(10 + i), vec![text(&format!("s{i}"))])).collect();
    let combined = combine_scalar_arms(base, segment);
    let texts: Vec<String> = combined.iter().map(|(_, parts)| rendered(parts)).collect();
    assert_eq!(texts, vec!["b0", "b1", "b2", "s0", "s1", "s2"]);
    assert!(predicates_equal(&combined[4].0, &truthy(11)));
}

#[test]
fn past_the_fanout_bound_all_parts_collapse_into_one_arm() {
    let base: Vec<_> = (0..40u64).map(|i| arm(truthy(i), vec![text("b")])).collect();
    let segment: Vec<_> = (0..25u64).map(|i| arm(truthy(100 + i), vec![text("s")])).collect();
    assert!(base.len() + segment.len() > MAX_SCALAR_ARM_FANOUT);
    let combined = combine_scalar_arms(base, segment);
    assert_eq!(combined.len(), 1);
    assert!(predicates_equal(&combined[0].0, &Predicate::True));
    assert_eq!(rendered(&combined[0].1), format!("{}{}", "b".repeat(40), "s".repeat(25)));
}

#[test]
fn exactly_the_fanout_bound_keeps_every_arm() {
    let base: Vec<_> = (0..32u64).map(|i| arm(truthy(i), vec![text("b")])).collect();
    let segment: Vec<_> = (0..32u64).map(|i| arm(truthy(100 + i), vec![text("s")])).collect();
    let combined = combine_scalar_arms(base, segment);
    assert_eq!(combined.len(), MAX_SCALAR_ARM_FANOUT);
}

#[test]
fn copied_parts_keep_sites_flags_and_provenance() {
    let site = Some(Rc::new(SiteFacts {
        resource: Some(ResourceRef { kind: "Service".to_string(), name: "web".to_string() }),
        path_prefix: vec!["spec".to_string()],
        provenance: None,
    }));
    let mut splice = Splice::scalar("image.tag".to_string());
    splice.kind = ValueKind::PartialScalar;
    splice.meta.encoded = true;
    splice.meta.site = site.clone();
    splice.meta.provenance =
        vec![ContractProvenance { source_path: "a.tpl".to_string(), start: 4, end: 9 }];
    let mut taint = TaintPart::new(vec!["x".to_string(), "y".to_string()]);
    taint.json_serialized = true;
    taint.site = site.clone();
    let parts = vec![
        StringPart::Text(vec!["a".to_string(), "b".to_string()]),
        StringPart::Splice(splice),
        StringPart::Taint(taint),
    ];
    let copy = duplicate_parts(&parts);
    assert_eq!(copy.len(), 3);
    assert!(matches!(&copy[0], StringPart::Text(t) if t == &vec!["a".to_string(), "b".to_string()]));
    match &copy[1] {
        StringPart::Splice(s) => {
            assert_eq!(s.values_path, "image.tag");
            assert_eq!(s.kind, ValueKind::PartialScalar);
            assert!(s.meta.encoded && !s.meta.defaulted);
            assert_eq!(s.meta.provenance[0].start, 4);
            assert!(Rc::ptr_eq(s.meta.site.as_ref().unwrap(), site.as_ref().unwrap()));
        }
        _ => panic!("expected a splice"),
    }
    match &copy[2] {
        StringPart::Taint(t) => {
            assert_eq!(t.paths, vec!["x".to_string(), "y".to_string()]);
            assert!(t.json_serialized);
            assert_eq!(t.site.as_ref().unwrap().path_prefix, vec!["spec".to_string()]);
        }
        _ => panic!("expected a taint"),
    }
}

#[test]
fn unknown_scalars_are_one_unattributed_taint() {
    let arms = unknown_scalar_arms();
    assert_eq!(arms.len(), 1);
    assert!(predicates_equal(&arms[0].0, &Predicate::True));
    match &arms[0].1[..] {
        [StringPart::Taint(taint)] => {
            assert!(taint.paths.is_empty() && !taint.json_serialized);
            assert!(taint.site.is_none() && taint.provenance.is_empty());
        }
        _ => panic!("expected one taint part"),
    }
}
