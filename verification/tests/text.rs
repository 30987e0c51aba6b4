use cman::cli::Profile;
use cman::error::CmanError;
use cman::text::{decimal, is_whitespace, trim};

#[test]
fn decimals() {
    assert_eq!(decimal(0), "0");
    assert_eq!(decimal(7), "7");
    assert_eq!(decimal(10), "10");
    assert_eq!(decimal(1234567), "1234567");
}

#[test]
fn trimming() {
    assert_eq!(trim("  abc \n"), "abc");
    assert_eq!(trim("\u{3000}a b\u{85}"), "a b");
    assert_eq!(trim("   "), "");
    assert_eq!(trim(""), "");
    for c in ['\t', '\n', ' ', '\u{a0}', '\u{2028}'] {
        assert!(is_whitespace(c));
    }
    assert!(!is_whitespace('x'));
    assert!(!is_whitespace('\u{200b}'));
}

#[test]
fn profiles() {
    assert!(Profile::from_release_flag(true) == Profile::Release);
    assert!(Profile::from_release_flag(false) == Profile::Dev);
    assert_eq!(Profile::Dev.dir_name(), "debug");
    assert_eq!(Profile::Release.dir_name(), "release");
    assert_eq!(Profile::Dev.flags(), &["-g", "-O0"]);
    assert_eq!(Profile::Release.flags(), &["-O2", "-DNDEBUG"]);
}

#[test]
fn error_messages() {
    let e = CmanError::ManifestNotFound { start: "/x".into() };
    assert_eq!(e.message(), "could not find `cman.toml` in `/x` or any parent directory");
    let e = CmanError::CompileFailed { package: "p".into(), failed: vec![], total: 0 };
    assert_eq!(e.message(), "could not compile `p` (0 of 0 file(s) failed: )");
}
