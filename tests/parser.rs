use push_guard::parser::{
    detect_all_pushes, detect_branch_creations, parse_push_args, pushes_need_context, BranchContext,
};

fn no_context() -> BranchContext {
    BranchContext::unknown()
}

// parse_push_args

#[test]
fn parse_push_simple() {
    let args = ["origin", "main"];
    let p = parse_push_args(&args, &no_context());
    assert_eq!(p.remote, "origin");
    assert_eq!(p.branch, "main");
    assert!(!p.force);
}

#[test]
fn parse_push_refspec_colon() {
    let args = ["origin", "HEAD:main"];
    let p = parse_push_args(&args, &no_context());
    assert_eq!(p.remote, "origin");
    assert_eq!(p.branch, "main");
}

#[test]
fn parse_push_force_flag() {
    let args = ["--force", "origin", "feature"];
    let p = parse_push_args(&args, &no_context());
    assert_eq!(p.remote, "origin");
    assert_eq!(p.branch, "feature");
    assert!(p.force);
}

#[test]
fn parse_push_force_with_lease() {
    let args = ["origin", "feature", "--force-with-lease"];
    let p = parse_push_args(&args, &no_context());
    assert!(p.force);
}

#[test]
fn parse_push_short_force() {
    let args = ["-f", "origin", "feature"];
    let p = parse_push_args(&args, &no_context());
    assert!(p.force);
}

#[test]
fn parse_push_force_if_includes() {
    let args = ["--force-if-includes", "origin", "feature"];
    let p = parse_push_args(&args, &no_context());
    assert!(p.force);
    assert_eq!(p.branch, "feature");
}

#[test]
fn parse_push_valued_flags_skip_their_value() {
    let args = ["-o", "ci.skip", "--push-option", "x", "--receive-pack", "rp", "--exec", "e", "up", "topic"];
    let p = parse_push_args(&args, &no_context());
    assert_eq!(p.remote, "up");
    assert_eq!(p.branch, "topic");
    assert!(!p.force);
}

#[test]
fn parse_push_valued_flag_at_end() {
    let args = ["origin", "topic", "-o"];
    let p = parse_push_args(&args, &no_context());
    assert_eq!(p.remote, "origin");
    assert_eq!(p.branch, "topic");
}

#[test]
fn parse_push_other_flags_ignored() {
    let args = ["-u", "--set-upstream", "origin", "topic", "--tags"];
    let p = parse_push_args(&args, &no_context());
    assert_eq!(p.remote, "origin");
    assert_eq!(p.branch, "topic");
    assert!(!p.force);
}

#[test]
fn parse_push_refspec_takes_first_colon() {
    let args = ["origin", "a:b:c"];
    let p = parse_push_args(&args, &no_context());
    assert_eq!(p.branch, "b:c");
}

#[test]
fn parse_push_no_positionals_uses_upstream() {
    let ctx = BranchContext {
        upstream: Some(("fork".to_string(), "work".to_string())),
        current_branch: Some("local".to_string()),
    };
    let p = parse_push_args(&[], &ctx);
    assert_eq!(p.remote, "fork");
    assert_eq!(p.branch, "work");
}

#[test]
fn parse_push_no_positionals_without_upstream() {
    let ctx = BranchContext { upstream: None, current_branch: Some("local".to_string()) };
    let p = parse_push_args(&["--force"], &ctx);
    assert_eq!(p.remote, "origin");
    assert_eq!(p.branch, "local");
    assert!(p.force);
}

#[test]
fn parse_push_nothing_known_gives_empty_branch() {
    let p = parse_push_args(&[], &no_context());
    assert_eq!(p.remote, "origin");
    assert_eq!(p.branch, "");
}

#[test]
fn parse_push_remote_only_uses_current_branch() {
    let ctx = BranchContext {
        upstream: Some(("fork".to_string(), "work".to_string())),
        current_branch: Some("local".to_string()),
    };
    let p = parse_push_args(&["upstream"], &ctx);
    assert_eq!(p.remote, "upstream");
    assert_eq!(p.branch, "local");
}

// detect_branch_creations

#[test]
fn detect_checkout_b() {
    let branches = detect_branch_creations("git checkout -b feature");
    assert_eq!(branches, vec!["feature"]);
}

#[test]
fn detect_switch_c() {
    let branches = detect_branch_creations("git switch -c new-feature");
    assert_eq!(branches, vec!["new-feature"]);
}

#[test]
fn detect_branch_create() {
    let branches = detect_branch_creations("git branch my-branch");
    assert_eq!(branches, vec!["my-branch"]);
}

#[test]
fn detect_chained_multiple_creations() {
    let branches = detect_branch_creations("git branch a; git checkout -b b");
    assert_eq!(branches, vec!["a", "b"]);
}

#[test]
fn detect_no_creation() {
    let branches = detect_branch_creations("git push origin main");
    assert!(branches.is_empty());
}

#[test]
fn detect_checkout_without_create_flag() {
    assert!(detect_branch_creations("git checkout main").is_empty());
    assert!(detect_branch_creations("git switch main").is_empty());
}

#[test]
fn detect_checkout_takes_last_operand() {
    let branches = detect_branch_creations("git checkout -b topic origin/main");
    assert_eq!(branches, vec!["origin/main"]);
}

#[test]
fn detect_clustered_create_flag() {
    let branches = detect_branch_creations("git checkout -Bq topic");
    assert_eq!(branches, vec!["topic"]);
    let upper = detect_branch_creations("git switch -C other --track");
    assert_eq!(upper, vec!["other"]);
}

#[test]
fn detect_branch_skips_flags() {
    let branches = detect_branch_creations("git branch -f --quiet topic base");
    assert_eq!(branches, vec!["topic"]);
}

#[test]
fn detect_branch_with_only_flags() {
    assert!(detect_branch_creations("git branch -a").is_empty());
    assert!(detect_branch_creations("git branch").is_empty());
}

#[test]
fn detect_creations_on_empty_and_blank_input() {
    assert!(detect_branch_creations("").is_empty());
    assert!(detect_branch_creations("  \t ;& ").is_empty());
}

#[test]
fn detect_two_creations_in_one_segment() {
    let branches = detect_branch_creations("git branch x git branch y");
    assert_eq!(branches, vec!["x", "y"]);
    let both = detect_branch_creations("git checkout -b x git branch y");
    assert_eq!(both, vec!["y", "y"]);
}

// detect_all_pushes

#[test]
fn detect_single_push() {
    let pushes = detect_all_pushes("git push origin feature", &no_context());
    assert_eq!(pushes.len(), 1);
    assert_eq!(pushes[0].remote, "origin");
    assert_eq!(pushes[0].branch, "feature");
}

#[test]
fn detect_chained_pushes() {
    let pushes = detect_all_pushes("git push origin a; git push upstream b", &no_context());
    assert_eq!(pushes.len(), 2);
    assert_eq!(pushes[0].remote, "origin");
    assert_eq!(pushes[0].branch, "a");
    assert_eq!(pushes[1].remote, "upstream");
    assert_eq!(pushes[1].branch, "b");
}

#[test]
fn detect_push_with_creation() {
    // Both a branch creation and a push in same chained command
    let creations = detect_branch_creations("git checkout -b feat && git push origin feat");
    assert_eq!(creations, vec!["feat"]);
    let pushes = detect_all_pushes("git checkout -b feat && git push origin feat", &no_context());
    assert_eq!(pushes.len(), 1);
    assert_eq!(pushes[0].branch, "feat");
}

#[test]
fn chained_creation_and_push_exact() {
    let command = "git checkout -b feat && git push origin feat";
    let creations = detect_branch_creations(command);
    assert_eq!(creations, vec!["feat"]);
    let pushes = detect_all_pushes(command, &no_context());
    assert_eq!(pushes.len(), 1);
    assert_eq!(pushes[0].remote, "origin");
    assert_eq!(pushes[0].branch, "feat");
    assert!(!pushes[0].force);
}

#[test]
fn refspec_destination_in_command() {
    let pushes = detect_all_pushes("git push origin HEAD:main", &no_context());
    assert_eq!(pushes.len(), 1);
    assert_eq!(pushes[0].remote, "origin");
    assert_eq!(pushes[0].branch, "main");
    assert!(!pushes[0].force);
}

#[test]
fn only_first_push_of_a_segment_counts() {
    let pushes = detect_all_pushes("git push origin a git push other b", &no_context());
    assert_eq!(pushes.len(), 1);
    assert_eq!(pushes[0].remote, "origin");
    assert_eq!(pushes[0].branch, "a");
}

#[test]
fn push_not_at_start_of_segment() {
    let pushes = detect_all_pushes("cd repo && env X=1 git push -f origin topic | cat", &no_context());
    assert_eq!(pushes.len(), 1);
    assert_eq!(pushes[0].remote, "origin");
    assert_eq!(pushes[0].branch, "topic");
    assert!(pushes[0].force);
}

#[test]
fn no_push_in_other_git_commands() {
    assert!(detect_all_pushes("git pull origin main; git status", &no_context()).is_empty());
    assert!(detect_all_pushes("", &no_context()).is_empty());
    assert!(detect_all_pushes("git", &no_context()).is_empty());
}

#[test]
fn bare_push_uses_context() {
    let ctx = BranchContext { upstream: None, current_branch: Some("topic".to_string()) };
    let pushes = detect_all_pushes("git push", &ctx);
    assert_eq!(pushes.len(), 1);
    assert_eq!(pushes[0].remote, "origin");
    assert_eq!(pushes[0].branch, "topic");
}

#[test]
fn parser_handles_odd_input() {
    let inputs = ["&&&;;;", "git push ;", "git checkout -b", "\u{3000}git\u{3000}push\u{3000}o\u{3000}b", "ünïcödé git branch ß"];
    for input in inputs {
        let _ = detect_branch_creations(input);
        let _ = detect_all_pushes(input, &no_context());
    }
    let wide = detect_all_pushes("\u{3000}git\u{3000}push\u{3000}o\u{3000}b", &no_context());
    assert_eq!(wide.len(), 1);
    assert_eq!(wide[0].branch, "b");
    assert_eq!(detect_branch_creations("ünïcödé git branch ß"), vec!["ß"]);
}

#[test]
fn context_needed_only_for_unnamed_targets() {
    assert!(!pushes_need_context("git push origin main; git checkout -b x"));
    assert!(pushes_need_context("git push"));
    assert!(pushes_need_context("git push origin"));
    assert!(pushes_need_context("git push origin main && git push -f up"));
    assert!(!pushes_need_context("git status"));
}
