use lib::conditions::predicates_equal;
use lib::contributions::{ControlOutcome, LoopControl};
use lib::disjunction::{
    any_conditions, compare_predicates, condition_branch, or_predicates, Comparison,
};
use lib::predicate::{Guard, GuardKind, Predicate};

fn truthy(path: u64) -> Predicate {
    Predicate::Guard(Guard { kind: GuardKind::Truthy, path })
}

fn not_guard(path: u64) -> Predicate {
    Predicate::Guard(Guard { kind: GuardKind::Not, path })
}

fn or(parts: Vec<Predicate>) -> Predicate {
    Predicate::Or(parts)
}

fn same(a: &Predicate, b: &Predicate) -> bool {
    predicates_equal(a, b)
}

fn outcome(condition: Predicate) -> ControlOutcome {
    ControlOutcome { condition, state: 0 }
}

#[test]
fn predicates_order_by_variant_then_contents() {
    assert_eq!(compare_predicates(&Predicate::True, &Predicate::False), Comparison::Less);
    assert_eq!(compare_predicates(&truthy(5), &Predicate::False), Comparison::Greater);
    assert_eq!(compare_predicates(&truthy(5), &not_guard(1)), Comparison::Less);
    assert_eq!(compare_predicates(&truthy(5), &truthy(7)), Comparison::Less);
    assert_eq!(compare_predicates(&truthy(7), &truthy(7)), Comparison::Equal);
    assert_eq!(
        compare_predicates(&or(vec![truthy(1)]), &or(vec![truthy(1), truthy(0)])),
        Comparison::Less
    );
    assert_eq!(
        compare_predicates(&or(vec![truthy(2)]), &or(vec![truthy(1), truthy(0)])),
        Comparison::Greater
    );
    assert_eq!(
        compare_predicates(&Predicate::Not(Box::new(truthy(1))), &Predicate::Approximate(0)),
        Comparison::Less
    );
}

#[test]
fn any_condition_is_true_when_one_is() {
    assert!(any_conditions(vec![truthy(1), Predicate::True]).is_true());
}

#[test]
fn any_condition_is_false_when_none_is_left() {
    assert!(any_conditions(vec![]).is_false());
    assert!(any_conditions(vec![Predicate::False, Predicate::False]).is_false());
}

#[test]
fn any_condition_orders_and_deduplicates_its_disjuncts() {
    assert!(same(&any_conditions(vec![Predicate::False, truthy(4)]), &truthy(4)));
    assert!(same(&any_conditions(vec![truthy(4), truthy(4)]), &truthy(4)));
    let any = any_conditions(vec![truthy(9), Predicate::False, not_guard(2), truthy(3), truthy(9)]);
    assert!(same(&any, &or(vec![truthy(3), truthy(9), not_guard(2)])));
}

#[test]
fn loop_exit_conditions_cover_breaks_and_continues() {
    let control = LoopControl {
        breaks: vec![outcome(truthy(2))],
        continues: vec![outcome(truthy(1)), outcome(Predicate::False)],
    };
    assert!(same(&control.exit_condition(), &or(vec![truthy(1), truthy(2)])));
    assert!(same(&control.break_condition(), &truthy(2)));
    let none = LoopControl { breaks: vec![], continues: vec![] };
    assert!(none.exit_condition().is_false());
    assert!(none.break_condition().is_false());
}

#[test]
fn or_absorbs_true_and_drops_false() {
    assert!(or_predicates(truthy(1), Predicate::True).is_true());
    assert!(or_predicates(Predicate::True, Predicate::False).is_true());
    assert!(same(&or_predicates(Predicate::False, truthy(1)), &truthy(1)));
    assert!(same(&or_predicates(truthy(1), Predicate::False), &truthy(1)));
    assert!(same(&or_predicates(truthy(1), truthy(1)), &truthy(1)));
}

#[test]
fn or_merges_disjunctions() {
    let merged = or_predicates(or(vec![truthy(5), truthy(1)]), or(vec![truthy(3), truthy(1)]));
    assert!(same(&merged, &or(vec![truthy(1), truthy(3), truthy(5)])));
    let pushed = or_predicates(or(vec![truthy(5)]), truthy(2));
    assert!(same(&pushed, &or(vec![truthy(2), truthy(5)])));
    let pushed_left = or_predicates(truthy(2), or(vec![truthy(5), truthy(2)]));
    assert!(same(&pushed_left, &or(vec![truthy(2), truthy(5)])));
    // Two plain conditions keep their order.
    assert!(same(&or_predicates(truthy(9), truthy(1)), &or(vec![truthy(9), truthy(1)])));
}

#[test]
fn a_condition_chain_flattens_into_one_ordered_branch() {
    let chain = vec![
        Predicate::True,
        Predicate::And(vec![truthy(3), not_guard(1)]),
        truthy(2),
        truthy(3),
        Predicate::Not(Box::new(truthy(4))),
    ];
    let branch = condition_branch(&chain);
    assert_eq!(branch.len(), 4);
    assert!(same(&branch[0], &truthy(2)));
    assert!(same(&branch[1], &truthy(3)));
    assert!(same(&branch[2], &not_guard(1)));
    assert!(same(&branch[3], &Predicate::Not(Box::new(truthy(4)))));
}

#[test]
fn an_unconditional_chain_has_an_empty_branch() {
    assert!(condition_branch(&[]).is_empty());
    assert!(condition_branch(&[Predicate::True, Predicate::And(vec![])]).is_empty());
    let nested = condition_branch(&[Predicate::Or(vec![truthy(1), truthy(2)])]);
    assert_eq!(nested.len(), 1);
    assert!(same(&nested[0], &or(vec![truthy(1), truthy(2)])));
}

#[test]
fn any_of_the_same_conditions_is_the_same_in_any_order() {
    let first = any_conditions(vec![truthy(3), not_guard(1), Predicate::False, truthy(2)]);
    let second = any_conditions(vec![truthy(2), truthy(3), truthy(2), not_guard(1), truthy(3)]);
    assert!(same(&first, &second));
    assert!(same(&first, &or(vec![truthy(2), truthy(3), not_guard(1)])));
}

#[test]
fn merged_disjunctions_come_out_in_one_order() {
    let left = or_predicates(or(vec![truthy(5), truthy(1)]), or(vec![truthy(3), truthy(1)]));
    let right = or_predicates(or(vec![truthy(3), truthy(1)]), or(vec![truthy(1), truthy(5)]));
    assert!(same(&left, &right));
    assert!(same(&left, &or(vec![truthy(1), truthy(3), truthy(5)])));
}
