use push_guard::probe::{default_from_remote_show, default_from_symref, tracking_pair};
use push_guard::text::{blank, trimmed};

#[test]
fn tracking_pair_splits_at_first_slash() {
    assert_eq!(tracking_pair("origin/main\n"), Some(("origin".to_string(), "main".to_string())));
    assert_eq!(
        tracking_pair("  fork/feature/x "),
        Some(("fork".to_string(), "feature/x".to_string()))
    );
    assert_eq!(tracking_pair("main\n"), None);
    assert_eq!(tracking_pair(""), None);
}

#[test]
fn symref_strips_remote_prefix() {
    assert_eq!(default_from_symref("origin/main\n", "origin"), Some("main".to_string()));
    assert_eq!(default_from_symref("origin/trunk", "upstream"), None);
    assert_eq!(default_from_symref("  \n", "origin"), None);
    assert_eq!(default_from_symref("originmain", "origin"), None);
}

#[test]
fn remote_show_reads_head_branch_line() {
    let out = "* remote origin\n  Fetch URL: x\r\n  HEAD branch: develop\r\n  Remote branches:\n";
    assert_eq!(default_from_remote_show(out), Some("develop".to_string()));
    assert_eq!(default_from_remote_show("* remote origin\n  Fetch URL: x\n"), None);
    assert_eq!(default_from_remote_show("HEAD branch:   a\nHEAD branch: b"), Some("a".to_string()));
}

#[test]
fn trimming_and_blank_text() {
    assert_eq!(trimmed("\t /repo/path \n"), "/repo/path");
    assert_eq!(trimmed("\u{3000}x\u{85}"), "x");
    assert!(blank(""));
    assert!(blank(" \n\t\r"));
    assert!(!blank(" {} "));
}
