use push_guard::evaluator::{
    early_decision, evaluate, exit_status, hook_verdict, ledger_decision, needs_default_branch,
    Decision,
};
use push_guard::ledger::State;
use push_guard::parser::{detect_all_pushes, detect_branch_creations, BranchContext};

fn reason(d: &Decision) -> Option<String> {
    match d {
        Decision::Allow => None,
        Decision::Block(r) => Some(r.clone()),
    }
}

fn check(s: &State, branch: &str, force: bool, dry_run: bool) -> (u8, Option<String>) {
    let d = evaluate(s, "/r", "origin", branch, force, None);
    (exit_status(&d, dry_run), reason(&d))
}

#[test]
fn track_then_check_allows() {
    let mut s = State::new();
    s.track("/r", "feature");
    assert_eq!(check(&s, "feature", false, false), (0, None));
}

#[test]
fn untracked_check_blocks() {
    let s = State::new();
    let (code, why) = check(&s, "novel", false, false);
    assert_eq!(code, 1);
    assert!(why.unwrap().contains("not created by me"));
}

#[test]
fn authorize_then_revoke() {
    let mut s = State::new();
    s.authorize("/r", "hotfix");
    assert_eq!(check(&s, "hotfix", false, false).0, 0);
    s.revoke("/r", "hotfix");
    assert_eq!(check(&s, "hotfix", false, false).0, 1);
}

#[test]
fn force_always_blocks() {
    let mut s = State::new();
    s.track("/r", "feature");
    let (code, why) = check(&s, "feature", true, false);
    assert_eq!(code, 1);
    assert!(why.unwrap().contains("Force push"));
}

#[test]
fn dry_run_never_fails() {
    let s = State::new();
    let (code, why) = check(&s, "novel", false, true);
    assert_eq!(code, 0);
    assert!(why.is_some());
}

#[test]
fn stale_clean_then_check_blocks() {
    let mut s = State::new();
    s.track("/definitely/not/a/path", "feat");
    s.clean_stale();
    assert!(!s.is_tracked("/definitely/not/a/path", "feat"));
    let d = evaluate(&s, "/definitely/not/a/path", "origin", "feat", false, None);
    assert_eq!(exit_status(&d, false), 1);
}

#[test]
fn clean_repo_then_check_blocks() {
    let mut s = State::new();
    s.track("/r", "feat");
    s.clean_repo("/r");
    assert_eq!(check(&s, "feat", false, false).0, 1);
}

#[test]
fn empty_branch_is_allowed() {
    let s = State::new();
    assert_eq!(check(&s, "", true, false), (0, None));
}

#[test]
fn default_branch_blocks_even_when_tracked() {
    let mut s = State::new();
    s.track("/r", "trunk");
    let d = evaluate(&s, "/r", "origin", "trunk", false, Some("trunk"));
    let text = reason(&d).unwrap();
    assert_eq!(
        text,
        "'trunk' is the default branch of 'origin'.\nRecommendation: push to a feature branch instead.\nTo push to 'trunk' directly, say \"I authorize\"."
    );
    let other = evaluate(&s, "/r", "origin", "trunk", false, Some("main"));
    assert!(reason(&other).is_none());
}

#[test]
fn force_beats_default_branch() {
    let s = State::new();
    let d = evaluate(&s, "/r", "origin", "main", true, Some("main"));
    assert_eq!(
        reason(&d).unwrap(),
        "Force push to 'main' requires explicit user authorization.\nSay \"I authorize\" to proceed."
    );
}

#[test]
fn unknown_branch_reason_text() {
    let s = State::new();
    let d = evaluate(&s, "/r", "origin", "novel", false, None);
    assert_eq!(
        reason(&d).unwrap(),
        "Branch 'novel' was not created by me and has no authorization.\nTo authorize: say \"authorize push to novel\"\nTo revoke later: push-guard revoke --repo '/r' --branch 'novel'"
    );
}

#[test]
fn ledger_of_other_repo_does_not_count() {
    let mut s = State::new();
    s.track("/elsewhere", "feature");
    assert_eq!(check(&s, "feature", false, false).0, 1);
}

#[test]
fn same_inputs_same_decision() {
    let mut a = State::new();
    let mut b = State::new();
    a.track("/r", "x");
    b.track("/r", "x");
    assert_eq!(reason(&evaluate(&a, "/r", "o", "y", false, None)), reason(&evaluate(&b, "/r", "o", "y", false, None)));
    assert_eq!(reason(&evaluate(&a, "/r", "o", "x", false, None)), reason(&evaluate(&b, "/r", "o", "x", false, None)));
}

#[test]
fn default_branch_needed_only_for_named_unforced_push() {
    assert!(needs_default_branch("main", false));
    assert!(!needs_default_branch("main", true));
    assert!(!needs_default_branch("", false));
}

#[test]
fn hook_flow_creation_then_push_allows() {
    let command = "git checkout -b feat && git push origin feat";
    let mut s = State::new();
    s.track_all("/r", &detect_branch_creations(command));
    let pushes = detect_all_pushes(command, &BranchContext::unknown());
    assert_eq!(pushes.len(), 1);
    for p in &pushes {
        let d = evaluate(&s, "/r", &p.remote, &p.branch, p.force, None);
        assert_eq!(exit_status(&d, false), 0);
    }
}

#[test]
fn early_decision_needs_no_ledger() {
    assert!(matches!(early_decision("origin", "", true, None), Some(Decision::Allow)));
    let forced = early_decision("origin", "x", true, None);
    assert!(reason(&forced.unwrap()).unwrap().contains("Force push"));
    let default = early_decision("origin", "main", false, Some("main"));
    assert!(reason(&default.unwrap()).unwrap().contains("default branch"));
    assert!(early_decision("origin", "main", false, Some("trunk")).is_none());
    assert!(early_decision("origin", "main", false, None).is_none());
}

#[test]
fn ledger_decision_uses_both_tables() {
    let mut s = State::new();
    s.track("/r", "a");
    s.authorize("/r", "b");
    assert!(reason(&ledger_decision(&s, "/r", "a")).is_none());
    assert!(reason(&ledger_decision(&s, "/r", "b")).is_none());
    assert!(reason(&ledger_decision(&s, "/r", "c")).unwrap().contains("not created by me"));
}

#[test]
fn hook_verdict_records_creations_before_pushes() {
    let command = "git checkout -b feat && git push origin feat";
    let pushes = detect_all_pushes(command, &BranchContext::unknown());
    let defaults = vec![None; pushes.len()];
    let mut s = State::new();
    assert_eq!(hook_verdict(&mut s, "/r", command, &pushes, &defaults), None);
    assert!(s.is_tracked("/r", "feat"));
}

#[test]
fn hook_verdict_reports_first_refusal() {
    let command = "git push origin ok; git push -f origin ok; git push origin other";
    let pushes = detect_all_pushes(command, &BranchContext::unknown());
    assert_eq!(pushes.len(), 3);
    let defaults = vec![None; pushes.len()];
    let mut s = State::new();
    s.track("/r", "ok");
    let verdict = hook_verdict(&mut s, "/r", command, &pushes, &defaults).unwrap();
    assert!(verdict.starts_with("Force push to 'ok'"));
}

#[test]
fn hook_verdict_uses_default_branches() {
    let command = "git branch main; git push origin main";
    let pushes = detect_all_pushes(command, &BranchContext::unknown());
    let mut s = State::new();
    let verdict = hook_verdict(&mut s, "/r", command, &pushes, &vec![Some("main".to_string())]);
    assert!(verdict.unwrap().contains("is the default branch of 'origin'"));
    assert!(s.is_tracked("/r", "main"));
}
