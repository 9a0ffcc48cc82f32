use lib::conditions::predicates_equal;
use lib::contributions::{
    arm_continues_open_mapping_entry, find_open_mapping_entry, take_mapping_continuation_arms,
    Contributions, ControlOutcome, FloatingOutput, LoopControl,
};
use lib::domain::{
    AbstractFragment, AbstractString, EntryKey, Guarded, Mapping, MappingEntry, Opaque, Sequence,
    Splice, StringPart,
};
use lib::predicate::{Guard, GuardKind, Predicate};

fn truthy(path: u64) -> Predicate {
    Predicate::Guard(Guard { kind: GuardKind::Truthy, path })
}

fn range(path: u64) -> Predicate {
    Predicate::Guard(Guard { kind: GuardKind::Range, path })
}

fn scalar(text: &str) -> AbstractFragment {
    AbstractFragment::Scalar(AbstractString::literal(text.to_string()))
}

fn splice(path: &str) -> AbstractFragment {
    AbstractFragment::Splice(Splice::scalar(path.to_string()))
}

fn literal(name: &str) -> EntryKey {
    EntryKey::Literal(name.to_string())
}

fn dynamic() -> EntryKey {
    EntryKey::Dynamic(AbstractString { parts: vec![StringPart::Text(vec!["k".to_string()])], suppressed: false })
}

fn entry(key: EntryKey, value: Guarded<AbstractFragment>) -> MappingEntry {
    MappingEntry { key, value }
}

fn mapping(entries: Vec<MappingEntry>) -> AbstractFragment {
    AbstractFragment::Mapping(Mapping { entries })
}

fn key_name(key: &EntryKey) -> String {
    match key {
        EntryKey::Literal(name) => name.clone(),
        EntryKey::Dynamic(_) => "<dynamic>".to_string(),
    }
}

fn floating(width: usize, column_only: bool, origin: usize, text: &str) -> FloatingOutput {
    FloatingOutput { width, column_only, origin, value: Guarded::unconditional(scalar(text)) }
}

fn scalar_text(fragment: &AbstractFragment) -> String {
    match fragment {
        AbstractFragment::Scalar(s) => match &s.parts[0] {
            StringPart::Text(t) => t[0].clone(),
            _ => String::new(),
        },
        _ => String::new(),
    }
}

#[test]
fn literal_keys_merge_into_their_first_entry() {
    let mut c = Contributions::new();
    c.merge_entry(literal("a"), Guarded::unconditional(scalar("1")));
    c.merge_entry(dynamic(), Guarded::unconditional(scalar("2")));
    c.merge_entry(literal("a"), Guarded::conditional(truthy(1), scalar("3")));
    c.merge_entry(dynamic(), Guarded::unconditional(scalar("4")));
    let keys: Vec<String> = c.entries.iter().map(|e| key_name(&e.key)).collect();
    assert_eq!(keys, vec!["a", "<dynamic>", "<dynamic>"]);
    assert_eq!(c.entries[0].value.arms.len(), 2);
    assert_eq!(scalar_text(&c.entries[0].value.arms[1].1), "3");
}

#[test]
fn guarding_a_level_guards_everything() {
    let mut c = Contributions::new();
    c.merge_entry(literal("a"), Guarded::unconditional(scalar("1")));
    c.items.push(Guarded::conditional(truthy(2), scalar("i")));
    c.items.push(Guarded::empty());
    c.push_value_arm((Predicate::True, scalar("v")));
    c.floating.push(floating(4, false, 0, "f"));
    c.floating.push(FloatingOutput { width: 2, column_only: false, origin: 0, value: Guarded::empty() });
    c.loop_control.breaks.push(ControlOutcome { condition: Predicate::True, state: 3 });
    c.guard_all(&truthy(1));
    assert!(predicates_equal(&c.entries[0].value.arms[0].0, &truthy(1)));
    assert_eq!(c.items.len(), 1);
    assert!(predicates_equal(&c.items[0].arms[0].0, &Predicate::And(vec![truthy(1), truthy(2)])));
    assert!(predicates_equal(&c.values.arms[0].0, &truthy(1)));
    assert_eq!(c.floating.len(), 1);
    assert!(predicates_equal(&c.floating[0].value.arms[0].0, &truthy(1)));
    assert!(predicates_equal(&c.loop_control.breaks[0].condition, &truthy(1)));
    assert_eq!(c.loop_control.breaks[0].state, 3);
}

#[test]
fn extending_merges_entries_and_appends_the_rest() {
    let mut a = Contributions::new();
    a.merge_entry(literal("x"), Guarded::unconditional(scalar("1")));
    a.push_value_arm((Predicate::True, scalar("v1")));
    let mut b = Contributions::new();
    b.merge_entry(literal("x"), Guarded::unconditional(scalar("2")));
    b.merge_entry(literal("y"), Guarded::unconditional(scalar("3")));
    b.push_value_arm((Predicate::True, scalar("v2")));
    b.loop_control.continues.push(ControlOutcome { condition: truthy(5), state: 0 });
    a.extend(b);
    assert_eq!(a.entries.len(), 2);
    assert_eq!(a.entries[0].value.arms.len(), 2);
    assert_eq!(a.values.arms.iter().map(|arm| scalar_text(&arm.1)).collect::<Vec<_>>(), vec!["v1", "v2"]);
    let taken = a.take_loop_control();
    assert_eq!(taken.continues.len(), 1);
    assert!(a.loop_control.continues.is_empty() && a.loop_control.breaks.is_empty());
}

#[test]
fn guarded_fragments_dissolve_into_the_level() {
    let mut g = Guarded::conditional(truthy(1), mapping(vec![entry(literal("a"), Guarded::unconditional(scalar("1")))]));
    // Under `True` a `False` value arm stays `False` and is dropped with its entry.
    g.extend(Guarded::unconditional(mapping(vec![entry(literal("gone"), Guarded::conditional(Predicate::False, scalar("x")))])));
    // Under another condition it becomes a conjunction, which is kept.
    g.extend(Guarded::conditional(truthy(7), mapping(vec![entry(literal("kept"), Guarded::conditional(Predicate::False, scalar("y")))])));
    g.extend(Guarded::conditional(Predicate::False, scalar("never")));
    g.extend(Guarded::unconditional(AbstractFragment::Sequence(Sequence {
        items: vec![Guarded::conditional(truthy(2), scalar("i")), Guarded::empty()],
    })));
    g.extend(Guarded::conditional(truthy(3), scalar("v")));
    let mut c = Contributions::new();
    c.extend_guarded_fragment(g);
    assert_eq!(c.entries.len(), 2);
    assert_eq!(key_name(&c.entries[0].key), "a");
    assert!(predicates_equal(&c.entries[0].value.arms[0].0, &truthy(1)));
    assert_eq!(key_name(&c.entries[1].key), "kept");
    assert!(predicates_equal(&c.entries[1].value.arms[0].0, &Predicate::And(vec![truthy(7), Predicate::False])));
    assert_eq!(c.items.len(), 1);
    assert!(predicates_equal(&c.items[0].arms[0].0, &truthy(2)));
    assert_eq!(c.values.arms.len(), 1);
    assert!(predicates_equal(&c.values.arms[0].0, &truthy(3)));
}

#[test]
fn floating_output_attaches_below_its_width() {
    let mut c = Contributions::new();
    c.floating.push(floating(6, false, 10, "deeper"));
    c.floating.push(floating(4, false, 10, "same-unmarked"));
    c.floating.push(floating(4, false, 30, "same-after-mark"));
    c.floating.push(floating(2, false, 10, "shallower"));
    c.floating.push(floating(2, true, 10, "column-before-content"));
    c.floating.push(floating(2, true, 50, "column-after-content"));
    let attached = c.take_floating_below(4, true, Some(20), Some(40));
    let texts: Vec<String> = attached.arms.iter().map(|arm| scalar_text(&arm.1)).collect();
    assert_eq!(texts, vec!["deeper", "same-unmarked", "column-before-content"]);
    let kept: Vec<String> = c.floating.iter().map(|f| scalar_text(&f.value.arms[0].1)).collect();
    assert_eq!(kept, vec!["same-after-mark", "shallower", "column-after-content"]);
    // A container that does not accept same-indent output only takes deeper output.
    let mut d = Contributions::new();
    d.floating.push(floating(4, false, 0, "same"));
    d.floating.push(floating(2, true, 0, "column"));
    assert!(d.take_floating_below(4, false, None, None).is_empty());
    assert_eq!(d.floating.len(), 2);
}

#[test]
fn assembling_orders_mapping_sequence_values_and_floating() {
    let mut c = Contributions::new();
    c.push_value_arm((truthy(1), scalar("v")));
    c.merge_entry(literal("a"), Guarded::unconditional(scalar("1")));
    c.items.push(Guarded::unconditional(scalar("i")));
    c.floating.push(floating(8, false, 0, "f"));
    let g = c.assemble();
    assert_eq!(g.arms.len(), 4);
    assert!(matches!(g.arms[0].1, AbstractFragment::Mapping(_)) && g.arms[0].0.is_true());
    assert!(matches!(g.arms[1].1, AbstractFragment::Sequence(_)) && g.arms[1].0.is_true());
    assert_eq!(scalar_text(&g.arms[2].1), "v");
    assert_eq!(scalar_text(&g.arms[3].1), "f");
    assert!(Contributions::new().assemble().is_empty());
}

#[test]
fn valueless_headers_take_following_templated_entries() {
    let mut c = Contributions::new();
    c.merge_entry(literal("name"), Guarded::unconditional(scalar("x")));
    c.merge_entry(literal("annotations"), Guarded::empty());
    c.merge_entry(dynamic(), Guarded::unconditional(scalar("1")));
    c.push_value_arm((range(4), splice("extra")));
    c.push_value_arm((truthy(4), splice("other")));
    c.floating.push(FloatingOutput {
        width: 2,
        column_only: false,
        origin: 0,
        value: Guarded::conditional(range(5), splice("floated")),
    });
    c.repair_valueless_mapping_header();
    assert_eq!(c.entries.len(), 2);
    let header = &c.entries[1].value;
    assert_eq!(header.arms.len(), 3);
    assert!(matches!(&header.arms[0].1, AbstractFragment::Splice(s) if s.values_path == "extra"));
    assert!(matches!(&header.arms[1].1, AbstractFragment::Splice(s) if s.values_path == "floated"));
    assert!(matches!(&header.arms[2].1, AbstractFragment::Mapping(m) if m.entries.len() == 1));
    assert_eq!(c.values.arms.len(), 1);
    assert!(c.floating.is_empty());
}

#[test]
fn headers_followed_by_literal_keys_stay_valueless() {
    let mut c = Contributions::new();
    c.merge_entry(literal("annotations"), Guarded::empty());
    c.merge_entry(literal("labels"), Guarded::unconditional(scalar("x")));
    c.push_value_arm((range(4), splice("extra")));
    c.repair_valueless_mapping_header();
    assert!(c.entries[0].value.is_empty());
    assert_eq!(c.values.arms.len(), 1);
    let mut none = Contributions::new();
    none.merge_entry(literal("a"), Guarded::unconditional(scalar("x")));
    none.repair_valueless_mapping_header();
    assert_eq!(none.entries[0].value.arms.len(), 1);
}

#[test]
fn continuation_arms_are_ranged_splices_and_templated_mappings() {
    let mut g = Guarded::conditional(range(1), splice("a"));
    g.extend(Guarded::conditional(truthy(1), splice("b")));
    g.extend(Guarded::unconditional(mapping(vec![entry(dynamic(), Guarded::unconditional(scalar("v")))])));
    g.extend(Guarded::unconditional(mapping(vec![entry(literal("hdr"), Guarded::empty())])));
    g.extend(Guarded::unconditional(mapping(vec![entry(literal("other"), Guarded::empty())])));
    g.extend(Guarded::unconditional(AbstractFragment::Opaque(Opaque::unattributed())));
    let taken = take_mapping_continuation_arms(&mut g, &"hdr".to_string());
    assert_eq!(taken.arms.len(), 3);
    assert_eq!(g.arms.len(), 3);
    assert!(matches!(&g.arms[0].1, AbstractFragment::Splice(s) if s.values_path == "b"));
}

#[test]
fn open_mapping_entries_are_found_in_the_last_arm_that_leaves_one() {
    let mut g = Guarded::conditional(
        truthy(1),
        mapping(vec![
            entry(literal("config"), Guarded::empty()),
            entry(dynamic(), Guarded::unconditional(scalar("v"))),
        ]),
    );
    g.extend(Guarded::unconditional(scalar("tail")));
    let (condition, key) = find_open_mapping_entry(&g).expect("an open entry");
    assert!(predicates_equal(&condition, &truthy(1)));
    assert_eq!(key, "config");
    let closed = Guarded::unconditional(mapping(vec![
        entry(literal("config"), Guarded::empty()),
        entry(literal("next"), Guarded::empty()),
    ]));
    let (_, last) = find_open_mapping_entry(&closed).expect("the last header is open");
    assert_eq!(last, "next");
    let valued = Guarded::unconditional(mapping(vec![entry(literal("a"), Guarded::unconditional(scalar("x")))]));
    assert!(find_open_mapping_entry(&valued).is_none());
    assert!(find_open_mapping_entry(&Guarded::empty()).is_none());
}

#[test]
fn continuing_an_open_entry_needs_the_owner_conjuncts() {
    let owner = truthy(1);
    let key = "config".to_string();
    let under = Predicate::And(vec![truthy(1), range(2)]);
    assert!(arm_continues_open_mapping_entry(&owner, &key, &under, &splice("m")));
    assert!(!arm_continues_open_mapping_entry(&owner, &key, &range(2), &splice("m")));
    assert!(!arm_continues_open_mapping_entry(&owner, &key, &truthy(1), &splice("m")));
    let members = mapping(vec![
        entry(dynamic(), Guarded::unconditional(scalar("v"))),
        entry(literal("config"), Guarded::empty()),
    ]);
    assert!(arm_continues_open_mapping_entry(&owner, &key, &truthy(1), &members));
    let other = mapping(vec![entry(literal("x"), Guarded::empty())]);
    assert!(!arm_continues_open_mapping_entry(&owner, &key, &truthy(1), &other));
    assert!(!arm_continues_open_mapping_entry(&owner, &key, &under, &scalar("s")));
}

#[test]
fn loop_control_guards_restates_and_extends() {
    let mut a = LoopControl { breaks: vec![ControlOutcome { condition: truthy(1), state: 1 }], continues: vec![] };
    a.guard_all(&truthy(9));
    assert!(predicates_equal(&a.breaks[0].condition, &Predicate::And(vec![truthy(9), truthy(1)])));
    a.replace_states(42);
    assert_eq!(a.breaks[0].state, 42);
    let b = LoopControl { breaks: vec![], continues: vec![ControlOutcome { condition: Predicate::True, state: 7 }] };
    a.extend(b);
    assert_eq!(a.breaks.len(), 1);
    assert_eq!(a.continues.len(), 1);
    let mut one = ControlOutcome { condition: Predicate::True, state: 0 };
    one.guard_all(&truthy(3));
    assert!(predicates_equal(&one.condition, &truthy(3)));
    one.replace_state(5);
    assert_eq!(one.state, 5);
}
