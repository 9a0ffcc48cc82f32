use lib::domain::{Splice, StringPart, ValueKind};
use lib::predicate::Predicate;
use lib::tokens::{advance_quote_context, completed_token_claims, QuoteContext, TokenClaims};

fn text(s: &str) -> StringPart {
    StringPart::Text(vec![s.to_string()])
}

fn partial(path: &str) -> StringPart {
    let mut splice = Splice::scalar(path.to_string());
    splice.kind = ValueKind::PartialScalar;
    StringPart::Splice(splice)
}

fn claims_of(arms: Vec<Vec<StringPart>>, templated: &[&str], value_slot: bool) -> TokenClaims {
    let arms: Vec<(Predicate, Vec<StringPart>)> = arms.into_iter().map(|parts| (Predicate::True, parts)).collect();
    let templated: Vec<String> = templated.iter().map(|t| t.to_string()).collect();
    completed_token_claims(&arms, &templated, value_slot).expect("arms present")
}

fn strings(v: &[&str]) -> Vec<String> {
    v.iter().map(|s| s.to_string()).collect()
}

#[test]
fn quotes_escapes_and_doubled_single_quotes_move_the_context() {
    let plain = QuoteContext::Plain;
    assert_eq!(advance_quote_context(plain, &"a\"b".to_string()), QuoteContext::Double);
    assert_eq!(advance_quote_context(plain, &"\"a\\\"b".to_string()), QuoteContext::Double);
    assert_eq!(advance_quote_context(plain, &"\"a\"".to_string()), QuoteContext::Plain);
    assert_eq!(advance_quote_context(plain, &"'it''s".to_string()), QuoteContext::Single);
    assert_eq!(advance_quote_context(plain, &"'x'".to_string()), QuoteContext::Plain);
    assert_eq!(advance_quote_context(QuoteContext::Double, &"\\".to_string()), QuoteContext::Double);
}

#[test]
fn a_lone_raw_splice_is_the_whole_token() {
    let claims = claims_of(vec![vec![partial("image.tag")]], &[], false);
    assert_eq!(claims.token_initial, strings(&["image.tag"]));
    assert!(claims.double_quoted.is_empty() && claims.single_quoted.is_empty());
}

#[test]
fn splices_inside_quotes_claim_the_quote_style() {
    let claims = claims_of(
        vec![vec![text("\""), partial("a"), text("\" '"), partial("b"), text("'")]],
        &[],
        false,
    );
    assert_eq!(claims.double_quoted, strings(&["a"]));
    assert_eq!(claims.single_quoted, strings(&["b"]));
    assert!(claims.token_initial.is_empty());
}

#[test]
fn template_carrying_values_claim_their_own_sets() {
    let claims = claims_of(vec![vec![partial("t")], vec![partial("t")]], &["t"], true);
    assert_eq!(claims.plain_templated, strings(&["t"]));
    assert!(claims.token_initial.is_empty());
    let quoted = claims_of(vec![vec![text("\""), partial("t")]], &["t"], false);
    assert_eq!(quoted.double_quoted_templated, strings(&["t"]));
    assert!(quoted.plain_templated.is_empty() && quoted.double_quoted.is_empty());
}

#[test]
fn a_path_claims_only_where_every_arm_agrees() {
    let claims = claims_of(vec![vec![partial("a")], vec![text("x"), partial("a")]], &[], false);
    assert!(claims.token_initial.is_empty());
    let both = claims_of(vec![vec![partial("a")], vec![partial("a"), text("-x")]], &[], false);
    assert_eq!(both.token_initial, strings(&["a"]));
}

#[test]
fn disagreeing_alternatives_end_the_scan() {
    let parts = vec![
        partial("a"),
        StringPart::Text(vec!["\"".to_string(), "x".to_string()]),
        partial("b"),
    ];
    let claims = claims_of(vec![parts], &[], false);
    assert_eq!(claims.token_initial, strings(&["a"]));
    assert!(claims.double_quoted.is_empty());
}

#[test]
fn transformed_or_defaulted_splices_do_not_claim() {
    let mut encoded = Splice::scalar("a".to_string());
    encoded.kind = ValueKind::PartialScalar;
    encoded.meta.encoded = true;
    let mut defaulted = Splice::scalar("b".to_string());
    defaulted.kind = ValueKind::PartialScalar;
    defaulted.meta.defaulted = true;
    let claims = claims_of(vec![vec![StringPart::Splice(encoded)]], &[], false);
    assert!(claims.token_initial.is_empty());
    let claims = claims_of(vec![vec![StringPart::Splice(defaulted)]], &[], false);
    assert!(claims.token_initial.is_empty());
}

#[test]
fn a_scalar_without_arms_claims_nothing() {
    assert!(completed_token_claims(&Vec::new(), &Vec::new(), true).is_none());
}

#[test]
fn claim_lists_are_ordered_sets() {
    let claims = claims_of(
        vec![vec![text("\""), partial("b"), partial("a"), partial("b"), text("\"")]],
        &[],
        false,
    );
    assert_eq!(claims.double_quoted, strings(&["a", "b"]));
}
