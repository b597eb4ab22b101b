use glint::rules::{RawRule, RuleSet};

fn raw(patterns: &[&str], style: &str) -> RawRule {
    RawRule {
        patterns: patterns.iter().map(|p| p.to_string()).collect(),
        style: style.as_bytes().to_vec(),
    }
}

#[test]
fn build_accepts_valid_rules() {
    let raws = vec![raw(&["foo"], "red"), raw(&["bar", "baz"], "green bold")];
    assert!(RuleSet::build(&raws).is_ok());
}

#[test]
fn build_accepts_empty_rule_list() {
    let raws: Vec<RawRule> = Vec::new();
    assert!(RuleSet::build(&raws).is_ok());
}

#[test]
fn build_fails_on_invalid_pattern() {
    let raws = vec![raw(&["(unbalanced"], "red")];
    let err = match RuleSet::build(&raws) {
        Ok(_) => panic!("an unbalanced parenthesis must be rejected"),
        Err(e) => e,
    };
    assert_eq!(err.pattern, "(unbalanced".to_string());
}

#[test]
fn build_reports_first_failing_pattern() {
    let raws = vec![
        raw(&["fine"], "red"),
        raw(&["also(fine)", "bad["], "green"),
        raw(&["another("], "blue"),
    ];
    let err = match RuleSet::build(&raws) {
        Ok(_) => panic!("an invalid pattern must be rejected"),
        Err(e) => e,
    };
    assert_eq!(err.pattern, "bad[".to_string());
}

#[test]
fn build_fails_on_invalid_pattern_among_many() {
    let raws = vec![raw(&["ok", ")"], "bold")];
    assert!(RuleSet::build(&raws).is_err());
}
