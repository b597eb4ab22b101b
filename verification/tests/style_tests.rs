use glint::style::{compile_style, lookup_style, reset_code};

#[test]
fn reset_code_bytes() {
    assert_eq!(reset_code(), b"\x1b[0m".to_vec());
}

#[test]
fn lookup_known_names() {
    assert_eq!(lookup_style(b"black"), Some(b"\x1b[30m".to_vec()));
    assert_eq!(lookup_style(b"red"), Some(b"\x1b[31m".to_vec()));
    assert_eq!(lookup_style(b"green"), Some(b"\x1b[32m".to_vec()));
    assert_eq!(lookup_style(b"yellow"), Some(b"\x1b[33m".to_vec()));
    assert_eq!(lookup_style(b"blue"), Some(b"\x1b[34m".to_vec()));
    assert_eq!(lookup_style(b"magenta"), Some(b"\x1b[35m".to_vec()));
    assert_eq!(lookup_style(b"cyan"), Some(b"\x1b[36m".to_vec()));
    assert_eq!(lookup_style(b"white"), Some(b"\x1b[37m".to_vec()));
    assert_eq!(lookup_style(b"bold"), Some(b"\x1b[1m".to_vec()));
    assert_eq!(lookup_style(b"underline"), Some(b"\x1b[4m".to_vec()));
    assert_eq!(lookup_style(b"blink"), Some(b"\x1b[5m".to_vec()));
    assert_eq!(lookup_style(b"reverse"), Some(b"\x1b[7m".to_vec()));
    assert_eq!(lookup_style(b"concealed"), Some(b"\x1b[8m".to_vec()));
    assert_eq!(lookup_style(b"default"), Some(b"\x1b[0m".to_vec()));
}

#[test]
fn lookup_is_case_sensitive_and_total() {
    assert_eq!(lookup_style(b"Red"), None);
    assert_eq!(lookup_style(b"crimson"), None);
    assert_eq!(lookup_style(b""), None);
}

#[test]
fn compile_concatenates_in_token_order() {
    assert_eq!(compile_style(b"red bold"), b"\x1b[31m\x1b[1m".to_vec());
    assert_eq!(compile_style(b"bold red"), b"\x1b[1m\x1b[31m".to_vec());
}

#[test]
fn compile_skips_unknown_tokens() {
    assert_eq!(compile_style(b"red nope bold"), b"\x1b[31m\x1b[1m".to_vec());
    assert_eq!(compile_style(b"nonexistent"), Vec::<u8>::new());
}

#[test]
fn compile_splits_on_unicode_whitespace() {
    assert_eq!(
        compile_style("red\u{a0}bold".as_bytes()),
        b"\x1b[31m\x1b[1m".to_vec()
    );
    assert_eq!(
        compile_style("red\u{2003}bold".as_bytes()),
        b"\x1b[31m\x1b[1m".to_vec()
    );
    assert_eq!(
        compile_style("red\u{3000}bold".as_bytes()),
        b"\x1b[31m\x1b[1m".to_vec()
    );
    assert_eq!(
        compile_style("\u{85}red\u{2028}".as_bytes()),
        b"\x1b[31m".to_vec()
    );
}

#[test]
fn compile_handles_extra_whitespace() {
    assert_eq!(compile_style(b"  red\t \tbold  "), b"\x1b[31m\x1b[1m".to_vec());
    assert_eq!(compile_style(b""), Vec::<u8>::new());
    assert_eq!(compile_style(b"   "), Vec::<u8>::new());
}
