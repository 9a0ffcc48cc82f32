use lib::conditions::{
    contains_predicate, duplicate_all, predicate_has_range, predicate_is_conjunctive_subset,
    predicates_equal, sequences_equal,
};
use lib::domain::and_conditions;
use lib::predicate::{Guard, GuardKind, Predicate};

fn guard(kind: GuardKind, path: u64) -> Predicate {
    Predicate::Guard(Guard { kind, path })
}

fn truthy(path: u64) -> Predicate {
    guard(GuardKind::Truthy, path)
}

fn and(parts: Vec<Predicate>) -> Predicate {
    Predicate::And(parts)
}

fn same(a: &Predicate, b: &Predicate) -> bool {
    predicates_equal(a, b)
}

#[test]
fn duplicates_are_equal() {
    let p = Predicate::Or(vec![
        and(vec![truthy(1), Predicate::Not(Box::new(truthy(2)))]),
        Predicate::Approximate(7),
    ]);
    assert!(same(&p.duplicate(), &p));
    let parts = vec![truthy(1), Predicate::False];
    assert!(sequences_equal(&duplicate_all(&parts), &parts));
}

#[test]
fn equality_compares_structure() {
    assert!(same(&truthy(1), &truthy(1)));
    assert!(!same(&truthy(1), &truthy(2)));
    assert!(!same(&truthy(1), &guard(GuardKind::Not, 1)));
    assert!(!same(&and(vec![truthy(1)]), &Predicate::Or(vec![truthy(1)])));
    assert!(!same(&and(vec![truthy(1)]), &and(vec![truthy(1), truthy(1)])));
    assert!(same(&Predicate::True, &Predicate::True));
    assert!(!same(&Predicate::True, &Predicate::False));
    assert!(!sequences_equal(&vec![truthy(1)], &vec![]));
}

#[test]
fn conjunction_of_parts() {
    assert!(Predicate::all(vec![]).is_true());
    assert!(same(&Predicate::all(vec![truthy(3)]), &truthy(3)));
    assert!(same(&Predicate::all(vec![truthy(3), truthy(4)]), &and(vec![truthy(3), truthy(4)])));
    assert!(Predicate::False.is_false());
    assert!(!truthy(1).is_false());
    assert!(!truthy(1).is_true());
}

#[test]
fn containment_is_by_structure() {
    let parts = vec![truthy(1), and(vec![truthy(2), truthy(3)])];
    assert!(contains_predicate(&parts, &and(vec![truthy(2), truthy(3)])));
    assert!(!contains_predicate(&parts, &and(vec![truthy(3), truthy(2)])));
    assert!(!contains_predicate(&vec![], &truthy(1)));
}

#[test]
fn range_guards_are_found_anywhere() {
    assert!(predicate_has_range(&guard(GuardKind::Range, 1)));
    assert!(predicate_has_range(&Predicate::Not(Box::new(guard(GuardKind::Range, 1)))));
    assert!(predicate_has_range(&Predicate::Or(vec![truthy(1), and(vec![guard(GuardKind::Range, 2)])])));
    assert!(!predicate_has_range(&and(vec![truthy(1), guard(GuardKind::Default, 2)])));
    assert!(!predicate_has_range(&Predicate::Approximate(3)));
}

#[test]
fn and_conditions_flattens_and_keeps_outer_first() {
    let a = truthy(1);
    let b = truthy(2);
    let c = truthy(3);
    let joined = and_conditions(and(vec![a.duplicate(), b.duplicate()]), and(vec![b.duplicate(), c.duplicate()]));
    assert!(same(&joined, &and(vec![a.duplicate(), b.duplicate(), c.duplicate()])));
    assert!(same(&and_conditions(Predicate::True, c.duplicate()), &c));
    assert!(same(&and_conditions(c.duplicate(), Predicate::True), &c));
    assert!(and_conditions(Predicate::True, Predicate::True).is_true());
    assert!(same(&and_conditions(c.duplicate(), c.duplicate()), &c));
    // Only one level is flattened: a nested conjunction stays one conjunct.
    let nested = and(vec![and(vec![a.duplicate(), b.duplicate()])]);
    let kept = and_conditions(nested, c.duplicate());
    assert!(same(&kept, &and(vec![and(vec![a.duplicate(), b.duplicate()]), c.duplicate()])));
    // The inner condition's repeats are removed too.
    assert!(same(&and_conditions(Predicate::True, and(vec![a.duplicate(), a.duplicate()])), &a));
}

#[test]
fn conjunctive_subsets_flatten_nested_conjunctions() {
    let owner = and(vec![truthy(1), truthy(2)]);
    let condition = and(vec![truthy(2), and(vec![truthy(1), truthy(3)])]);
    assert!(predicate_is_conjunctive_subset(&owner, &condition));
    assert!(!predicate_is_conjunctive_subset(&condition, &owner));
    assert!(predicate_is_conjunctive_subset(&Predicate::True, &truthy(9)));
    assert!(predicate_is_conjunctive_subset(&truthy(9), &truthy(9)));
    assert!(!predicate_is_conjunctive_subset(&truthy(9), &Predicate::True));
    let either = Predicate::Or(vec![truthy(1), truthy(2)]);
    assert!(!predicate_is_conjunctive_subset(&either, &owner));
    assert!(predicate_is_conjunctive_subset(&either, &and(vec![either.duplicate(), truthy(5)])));
}

#[test]
fn true_is_the_identity_of_conjunction_in_normal_form() {
    let pair = and(vec![truthy(1), truthy(2)]);
    assert!(same(&and_conditions(Predicate::True, pair.duplicate()), &pair));
    assert!(same(&and_conditions(pair.duplicate(), Predicate::True), &pair));
    assert!(same(&and_conditions(Predicate::True, Predicate::True), &Predicate::True));
    let repeated = and(vec![truthy(1), truthy(1)]);
    assert!(same(&and_conditions(Predicate::True, repeated), &truthy(1)));
}
