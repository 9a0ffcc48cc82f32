use std::rc::Rc;

use lib::conditions::predicates_equal;
use lib::domain::{
    scalar_arms_to_fragment, stamp_fragment_sites, stamp_part_sites, AbstractFragment,
    AbstractString, ContractProvenance, Guarded, Mapping, MappingEntry, EntryKey, Opaque,
    ResourceRef, SiteFacts, Splice, SpliceMeta, StringPart, TaintPart, ValueKind,
};
use lib::predicate::{Guard, GuardKind, Predicate};

fn truthy(path: u64) -> Predicate {
    Predicate::Guard(Guard { kind: GuardKind::Truthy, path })
}

fn site(name: &str) -> Option<Rc<SiteFacts>> {
    Some(Rc::new(SiteFacts {
        resource: Some(ResourceRef { kind: "ConfigMap".to_string(), name: name.to_string() }),
        path_prefix: vec![],
        provenance: Some(ContractProvenance { source_path: "t.yaml".to_string(), start: 1, end: 2 }),
    }))
}

fn site_name(site: &Option<Rc<SiteFacts>>) -> Option<String> {
    site.as_ref().and_then(|s| s.resource.as_ref()).map(|r| r.name.clone())
}

fn splice_site(part: &StringPart) -> Option<String> {
    match part {
        StringPart::Splice(s) => site_name(&s.meta.site),
        StringPart::Taint(t) => site_name(&t.site),
        StringPart::Text(_) => None,
    }
}

#[test]
fn constructors_start_without_site_or_flags() {
    let literal = AbstractString::literal("x".to_string());
    assert!(!literal.suppressed);
    assert!(matches!(&literal.parts[..], [StringPart::Text(t)] if t == &vec!["x".to_string()]));
    let taint = TaintPart::new(vec!["a".to_string()]);
    assert_eq!(taint.paths, vec!["a".to_string()]);
    assert!(!taint.json_serialized && taint.site.is_none() && taint.provenance.is_empty());
    let splice = Splice::scalar("a.b".to_string());
    assert_eq!(splice.values_path, "a.b");
    assert_eq!(splice.kind, ValueKind::Scalar);
    let meta = SpliceMeta::new();
    assert!(!meta.defaulted && !meta.encoded && !meta.shape_erased && !meta.yaml_serialized);
    assert!(!meta.string_contract && !meta.json_serialized && !meta.json_decoded);
    assert!(meta.site.is_none() && meta.provenance.is_empty());
    let opaque = Opaque::unattributed();
    assert!(opaque.taint.is_empty() && opaque.kind == ValueKind::Scalar && opaque.site.is_none());
    let default = Opaque::default();
    assert!(default.taint.is_empty() && default.provenance.is_empty());
}

#[test]
fn guarded_values_hold_arms_in_order() {
    let empty: Guarded<u8> = Guarded::empty();
    assert!(empty.is_empty());
    let one = Guarded::unconditional(7u8);
    assert_eq!(one.arms.len(), 1);
    assert!(one.arms[0].0.is_true());
    let mut two = Guarded::conditional(truthy(1), 8u8);
    two.extend(one);
    assert_eq!(two.arms.iter().map(|a| a.1).collect::<Vec<_>>(), vec![8, 7]);
    assert!(!two.is_empty());
}

#[test]
fn guarding_conjoins_the_condition_outer_first() {
    let mut g = Guarded::conditional(truthy(2), 1u8);
    g.extend(Guarded::unconditional(2u8));
    g.guard_all(&truthy(1));
    assert!(predicates_equal(&g.arms[0].0, &Predicate::And(vec![truthy(1), truthy(2)])));
    assert!(predicates_equal(&g.arms[1].0, &truthy(1)));
    assert_eq!(g.arms[1].1, 2);
    let mut unchanged = Guarded::conditional(Predicate::And(vec![truthy(3), truthy(3)]), 0u8);
    unchanged.guard_all(&Predicate::True);
    assert!(predicates_equal(&unchanged.arms[0].0, &Predicate::And(vec![truthy(3), truthy(3)])));
}

#[test]
fn stamping_fills_only_missing_sites() {
    let mut already = Splice::scalar("b".to_string());
    already.meta.site = site("first");
    let mut parts = vec![
        StringPart::Text(vec!["x".to_string()]),
        StringPart::Splice(Splice::scalar("a".to_string())),
        StringPart::Splice(already),
        StringPart::Taint(TaintPart::new(vec![])),
    ];
    stamp_part_sites(&mut parts, &site("call"));
    let sites: Vec<Option<String>> = parts.iter().map(splice_site).collect();
    assert_eq!(
        sites,
        vec![None, Some("call".to_string()), Some("first".to_string()), Some("call".to_string())]
    );
    // A second stamp changes nothing.
    stamp_part_sites(&mut parts, &site("later"));
    assert_eq!(parts.iter().map(splice_site).collect::<Vec<_>>(), sites);
    // Stamping with no site changes nothing.
    let mut bare = vec![StringPart::Splice(Splice::scalar("c".to_string()))];
    stamp_part_sites(&mut bare, &None);
    assert_eq!(splice_site(&bare[0]), None);
}

#[test]
fn stamping_reaches_nested_fragments() {
    let inner = Guarded::unconditional(AbstractFragment::Splice(Splice::scalar("deep".to_string())));
    let mapping = AbstractFragment::Mapping(Mapping {
        entries: vec![MappingEntry { key: EntryKey::Literal("k".to_string()), value: inner }],
    });
    let mut g = Guarded::unconditional(mapping);
    g.extend(Guarded::unconditional(AbstractFragment::Opaque(Opaque::unattributed())));
    stamp_fragment_sites(&mut g, &site("call"));
    match &g.arms[0].1 {
        AbstractFragment::Mapping(m) => match &m.entries[0].value.arms[0].1 {
            AbstractFragment::Splice(s) => assert_eq!(site_name(&s.meta.site), Some("call".to_string())),
            other => panic!("unexpected {:?}", other),
        },
        other => panic!("unexpected {:?}", other),
    }
    match &g.arms[1].1 {
        AbstractFragment::Opaque(o) => assert_eq!(site_name(&o.site), Some("call".to_string())),
        other => panic!("unexpected {:?}", other),
    }
}

#[test]
fn scalar_arms_become_scalar_fragments() {
    let arms = vec![
        (truthy(1), vec![StringPart::Text(vec!["a".to_string()])]),
        (Predicate::True, vec![]),
    ];
    let g = scalar_arms_to_fragment(arms, true);
    assert_eq!(g.arms.len(), 2);
    assert!(predicates_equal(&g.arms[0].0, &truthy(1)));
    match &g.arms[0].1 {
        AbstractFragment::Scalar(s) => {
            assert!(s.suppressed);
            assert_eq!(s.parts.len(), 1);
        },
        other => panic!("unexpected {:?}", other),
    }
    assert!(matches!(&g.arms[1].1, AbstractFragment::Scalar(s) if s.parts.is_empty()));
}

#[test]
fn the_default_guarded_value_has_no_arms() {
    let default: Guarded<u8> = Guarded::default();
    assert!(default.is_empty());
    assert!(Guarded::<u8>::empty().is_empty());
    assert!(!Guarded::unconditional(3u8).is_empty());
}
