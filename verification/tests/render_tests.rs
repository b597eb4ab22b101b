use glint::ansi::strip_codes;
use glint::highlight::render;
use glint::rules::{RawRule, RuleSet};

fn rules(entries: &[(&[&str], &str)]) -> RuleSet {
    let raws: Vec<RawRule> = entries
        .iter()
        .map(|(patterns, style)| RawRule {
            patterns: patterns.iter().map(|p| p.to_string()).collect(),
            style: style.as_bytes().to_vec(),
        })
        .collect();
    RuleSet::build(&raws).expect("the rules must compile")
}

fn render_str(rs: &RuleSet, line: &str) -> Vec<u8> {
    render(rs, line.as_bytes())
}

#[test]
fn no_match_passthrough() {
    let rs = rules(&[(&["foo"], "red")]);
    assert_eq!(render_str(&rs, "hello world"), b"hello world".to_vec());
    assert_eq!(render_str(&rs, ""), Vec::<u8>::new());
}

#[test]
fn single_match_is_wrapped() {
    let rs = rules(&[(&["world"], "red")]);
    assert_eq!(
        render_str(&rs, "hello world"),
        b"hello \x1b[31mworld\x1b[0m".to_vec()
    );
}

#[test]
fn disjoint_matches_render_independently() {
    let rs = rules(&[(&["foo"], "green")]);
    assert_eq!(
        render_str(&rs, "foo bar foo"),
        b"\x1b[32mfoo\x1b[0m bar \x1b[32mfoo\x1b[0m".to_vec()
    );
}

#[test]
fn overlapping_later_match_is_dropped_whole() {
    let rs = rules(&[(&["hello"], "red"), (&["lo wo"], "blue")]);
    assert_eq!(
        render_str(&rs, "hello world"),
        b"\x1b[31mhello\x1b[0m world".to_vec()
    );
}

#[test]
fn equal_start_tie_goes_to_earlier_rule() {
    let rs = rules(&[(&["ab"], "red"), (&["abc"], "blue")]);
    assert_eq!(render_str(&rs, "abc"), b"\x1b[31mab\x1b[0mc".to_vec());
}

#[test]
fn abutting_matches_are_both_kept() {
    let rs = rules(&[(&["ab"], "red"), (&["cd"], "blue")]);
    assert_eq!(
        render_str(&rs, "abcd"),
        b"\x1b[31mab\x1b[0m\x1b[34mcd\x1b[0m".to_vec()
    );
}

#[test]
fn unknown_style_still_wraps_with_reset() {
    let rs = rules(&[(&["hello"], "nonexistent")]);
    assert_eq!(render_str(&rs, "hello"), b"hello\x1b[0m".to_vec());
}

#[test]
fn zero_length_matches_style_nothing() {
    let rs = rules(&[(&["x*"], "red")]);
    assert_eq!(render_str(&rs, "abc"), b"abc".to_vec());
}

#[test]
fn zero_length_matches_skipped_real_ones_kept() {
    let rs = rules(&[(&["a*"], "green")]);
    assert_eq!(render_str(&rs, "bab"), b"b\x1b[32ma\x1b[0mb".to_vec());
}

#[test]
fn one_record_many_patterns_share_style() {
    let rs = rules(&[(&["foo", "bar"], "cyan")]);
    assert_eq!(
        render_str(&rs, "foo and bar"),
        b"\x1b[36mfoo\x1b[0m and \x1b[36mbar\x1b[0m".to_vec()
    );
}

#[test]
fn stripping_rendered_output_restores_line() {
    let rs = rules(&[
        (&["wor"], "red bold"),
        (&["o"], "blue"),
        (&["l+"], "underline"),
    ]);
    let line = "hello world, hello again";
    let out = render_str(&rs, line);
    assert_ne!(out, line.as_bytes().to_vec());
    assert_eq!(strip_codes(&out), line.as_bytes().to_vec());
}

#[test]
fn stripping_no_style_output_restores_line() {
    let rs = rules(&[(&["[a-z]+"], "nonexistent")]);
    let line = "mixed 123 content 456";
    let out = render_str(&rs, line);
    assert_eq!(strip_codes(&out), line.as_bytes().to_vec());
}

#[test]
fn strip_codes_removes_escape_sequences() {
    assert_eq!(strip_codes(b"\x1b[31mred\x1b[0m plain"), b"red plain".to_vec());
    assert_eq!(strip_codes(b"plain"), b"plain".to_vec());
}

#[test]
fn catastrophic_pattern_ends_scan_instead_of_failing() {
    // Compiles fine, but backtracks past the engine's retry limit on this
    // line; the engine reports the failure and the scan ends with no match.
    let rs = rules(&[(&["(a+)+$"], "red")]);
    let line = format!("{}b", "a".repeat(40));
    let out = render(&rs, line.as_bytes());
    assert_eq!(out, line.as_bytes().to_vec());
}

#[test]
fn lookbehind_keep_pattern_terminates_and_line_survives() {
    // The keep operator in a lookbehind can report a match start before the
    // position the search began at; the scan must end there rather than
    // rescan the same range forever, and stripping must restore the line.
    let rs = rules(&[(&["(?<=\\Ka)"], "red")]);
    let line = "aa";
    let out = render(&rs, line.as_bytes());
    assert_eq!(strip_codes(&out), line.as_bytes().to_vec());
}

#[test]
fn regex_alternation_and_classes_match() {
    let rs = rules(&[(&["ERROR|WARN"], "red")]);
    assert_eq!(
        render_str(&rs, "an ERROR and a WARN here"),
        b"an \x1b[31mERROR\x1b[0m and a \x1b[31mWARN\x1b[0m here".to_vec()
    );
}
