use push_guard::ledger::{missing_paths, State};

fn empty() -> State {
    State::default()
}

fn strings(v: &[&str]) -> Vec<String> {
    v.iter().map(|s| s.to_string()).collect()
}

#[test]
fn fresh_state_not_tracked() {
    let s = empty();
    assert!(!s.is_tracked("/repo", "main"));
}

#[test]
fn fresh_state_not_authorized() {
    let s = empty();
    assert!(!s.is_authorized("/repo", "main"));
}

#[test]
fn track_then_is_tracked() {
    let mut s = empty();
    s.track("/repo", "feature");
    assert!(s.is_tracked("/repo", "feature"));
}

#[test]
fn track_does_not_affect_authorized() {
    let mut s = empty();
    s.track("/repo", "feature");
    assert!(!s.is_authorized("/repo", "feature"));
}

#[test]
fn authorize_then_is_authorized() {
    let mut s = empty();
    s.authorize("/repo", "main");
    assert!(s.is_authorized("/repo", "main"));
}

#[test]
fn revoke_removes_authorization() {
    let mut s = empty();
    s.authorize("/repo", "main");
    s.revoke("/repo", "main");
    assert!(!s.is_authorized("/repo", "main"));
}

#[test]
fn revoke_does_not_affect_tracking() {
    let mut s = empty();
    s.track("/repo", "feature");
    s.revoke("/repo", "feature"); // revoke touches only the authorized table
    assert!(s.is_tracked("/repo", "feature"));
}

#[test]
fn track_deduplication() {
    let mut s = empty();
    s.track("/repo", "feature");
    s.track("/repo", "feature");
    assert_eq!(s.tracked_branches.get("/repo").unwrap().len(), 1);
}

#[test]
fn authorize_deduplication() {
    let mut s = empty();
    s.authorize("/repo", "main");
    s.authorize("/repo", "main");
    assert_eq!(s.authorized.get("/repo").unwrap().len(), 1);
}

#[test]
fn track_multiple_branches() {
    let mut s = empty();
    s.track("/repo", "a");
    s.track("/repo", "b");
    assert!(s.is_tracked("/repo", "a"));
    assert!(s.is_tracked("/repo", "b"));
}

#[test]
fn track_multiple_repos() {
    let mut s = empty();
    s.track("/repo-a", "feature");
    s.track("/repo-b", "feature");
    assert!(s.is_tracked("/repo-a", "feature"));
    assert!(s.is_tracked("/repo-b", "feature"));
    assert!(!s.is_tracked("/repo-a", "other"));
}

#[test]
fn clean_repo_removes_tracked_and_authorized() {
    let mut s = empty();
    s.track("/repo", "a");
    s.authorize("/repo", "b");
    s.clean_repo("/repo");
    assert!(!s.is_tracked("/repo", "a"));
    assert!(!s.is_authorized("/repo", "b"));
}

#[test]
fn clean_repo_does_not_affect_other_repos() {
    let mut s = empty();
    s.track("/repo-a", "feature");
    s.track("/repo-b", "feature");
    s.clean_repo("/repo-a");
    assert!(!s.is_tracked("/repo-a", "feature"));
    assert!(s.is_tracked("/repo-b", "feature"));
}

#[test]
fn clean_stale_removes_nonexistent_repos() {
    let mut s = empty();
    s.track("/definitely/does/not/exist/on/disk/repo", "feature");
    let removed = s.clean_stale();
    assert_eq!(removed.len(), 1);
    assert!(s.tracked_branches.is_empty());
}

#[test]
fn clean_stale_keeps_existing_repos() {
    let mut s = empty();
    s.track("/tmp", "feature"); // /tmp always exists
    let removed = s.clean_stale();
    assert!(removed.is_empty());
    assert!(s.is_tracked("/tmp", "feature"));
}

#[test]
fn track_keeps_insertion_order() {
    let mut s = empty();
    s.track("/repo", "b");
    s.track("/repo", "a");
    s.track("/repo", "b");
    assert_eq!(s.tracked_branches.get("/repo").unwrap(), &strings(&["b", "a"]));
}

#[test]
fn authorize_leaves_tracked_alone() {
    let mut s = empty();
    s.authorize("/repo", "x");
    assert!(!s.is_tracked("/repo", "x"));
    assert!(s.tracked_branches.is_empty());
}

#[test]
fn revoke_last_branch_drops_repo() {
    let mut s = empty();
    s.authorize("/repo", "x");
    s.authorize("/repo", "y");
    s.revoke("/repo", "x");
    assert_eq!(s.authorized.get("/repo").unwrap(), &strings(&["y"]));
    s.revoke("/repo", "y");
    assert!(s.authorized.get("/repo").is_none());
    assert!(s.authorized.is_empty());
}

#[test]
fn revoke_unknown_is_harmless() {
    let mut s = empty();
    s.authorize("/repo", "x");
    s.revoke("/other", "x");
    s.revoke("/repo", "zzz");
    assert!(s.is_authorized("/repo", "x"));
}

#[test]
fn repo_ids_compare_exactly() {
    let mut s = empty();
    s.track("/repo", "x");
    assert!(!s.is_tracked("/repo/", "x"));
    assert!(!s.is_tracked("/repo", "X"));
}

#[test]
fn clean_stale_counts_each_repo_once() {
    let mut s = empty();
    let missing_path = "/definitely/not/a/path";
    s.track(missing_path, "a");
    s.authorize(missing_path, "b");
    s.track("/tmp", "c");
    let removed = s.clean_stale();
    assert_eq!(removed, strings(&[missing_path]));
    assert!(!s.is_tracked(missing_path, "a"));
    assert!(!s.is_authorized(missing_path, "b"));
    assert!(s.is_tracked("/tmp", "c"));
}

#[test]
fn clean_missing_removes_exactly_the_listed_repos() {
    let mut s = empty();
    s.track("/a", "x");
    s.authorize("/b", "y");
    s.track("/c", "z");
    let removed = s.clean_missing(&strings(&["/b", "/nowhere", "/a", "/a"]));
    assert_eq!(removed, strings(&["/b", "/a"]));
    assert!(!s.is_tracked("/a", "x"));
    assert!(!s.is_authorized("/b", "y"));
    assert!(s.is_tracked("/c", "z"));
}

#[test]
fn repos_lists_each_repo_once() {
    let mut s = empty();
    s.track("/a", "x");
    s.authorize("/b", "y");
    s.authorize("/a", "w");
    assert_eq!(s.repos(), strings(&["/a", "/b"]));
}

#[test]
fn track_all_records_in_order() {
    let mut s = empty();
    s.track_all("/r", &strings(&["a", "b", "a"]));
    assert_eq!(s.tracked_branches.get("/r").unwrap(), &strings(&["a", "b"]));
    assert!(s.authorized.is_empty());
}

#[test]
fn pairs_round_trip() {
    let mut s = empty();
    s.track("/a", "x");
    s.track("/a", "y");
    s.track("/b", "z");
    s.authorize("/a", "q");
    let t = s.tracked_branches.to_pairs();
    let a = s.authorized.to_pairs();
    let back = State::from_pairs(&t, &a);
    assert_eq!(back.tracked_branches.to_pairs(), t);
    assert_eq!(back.authorized.to_pairs(), a);
    assert!(back.is_tracked("/a", "y"));
    assert!(back.is_authorized("/a", "q"));
}

#[test]
fn from_pairs_normalizes() {
    let created = vec![
        ("/a".to_string(), strings(&["x", "x", "y"])),
        ("/empty".to_string(), vec![]),
        ("/a".to_string(), strings(&["z", "y"])),
    ];
    let s = State::from_pairs(&created, &vec![]);
    assert_eq!(s.tracked_branches.get("/a").unwrap(), &strings(&["x", "y", "z"]));
    assert!(s.tracked_branches.get("/empty").is_none());
    assert!(s.authorized.is_empty());
}

#[test]
fn missing_paths_keeps_absent_ones_in_order() {
    let repos = strings(&["/a", "/b", "/c", "/d"]);
    let present = vec![true, false, true, false];
    assert_eq!(missing_paths(&repos, &present), strings(&["/b", "/d"]));
    assert!(missing_paths(&vec![], &vec![]).is_empty());
}
