//! The push decision: whether a push may go ahead, given the ledger and
//! what git says of the remote's default branch.

use crate::ledger::{holds, with_branches, RepoMap, State};
use crate::parser::{branch_creations, detect_branch_creations, push_views, PushInfo};
use vstd::prelude::*;
use vstd::string::StringExecFns;

verus! {

/// The outcome of checking a push.
pub enum Decision {
    Allow,
    /// Refused, with a message for the person at the terminal.
    Block(String),
}

impl Decision {
    /// `None` for `Allow`, the reason for `Block`.
    pub open spec fn reason(&self) -> Option<Seq<char>> {
        match self {
            Decision::Allow => None,
            Decision::Block(r) => Some(r@),
        }
    }
}

pub open spec fn force_reason(branch: Seq<char>) -> Seq<char> {
    "Force push to '"@ + branch + "' requires explicit user authorization.\nSay \"I authorize\" to proceed."@
}

pub open spec fn default_branch_reason(branch: Seq<char>, remote: Seq<char>) -> Seq<char> {
    "'"@ + branch + "' is the default branch of '"@ + remote
        + "'.\nRecommendation: push to a feature branch instead.\nTo push to '"@ + branch
        + "' directly, say \"I authorize\"."@
}

pub open spec fn unknown_branch_reason(repo: Seq<char>, branch: Seq<char>) -> Seq<char> {
    "Branch '"@ + branch + "' was not created by me and has no authorization.\nTo authorize: say \"authorize push to "@
        + branch + "\"\nTo revoke later: push-guard revoke --repo '"@ + repo + "' --branch '"@
        + branch + "'"@
}

/// The rules, first match wins: an empty branch is allowed; a force push is
/// refused; a push to the remote's default branch is refused; a branch the
/// agent created or the operator authorized is allowed; any other is refused.
pub open spec fn decide(
    tracked_branches: RepoMap,
    authorized: RepoMap,
    repo: Seq<char>,
    remote: Seq<char>,
    branch: Seq<char>,
    force: bool,
    default_branch: Option<Seq<char>>,
) -> Option<Seq<char>> {
    if branch.len() == 0 {
        None
    } else if force {
        Some(force_reason(branch))
    } else if default_branch == Some(branch) {
        Some(default_branch_reason(branch, remote))
    } else if holds(tracked_branches, repo, branch) || holds(authorized, repo, branch) {
        None
    } else {
        Some(unknown_branch_reason(repo, branch))
    }
}

pub open spec fn opt_view(o: Option<&str>) -> Option<Seq<char>> {
    match o {
        Some(s) => Some(s@),
        None => None,
    }
}

/// Whether deciding on this push needs the remote's default branch: only
/// when the branch is known and the push is not forced.
pub fn needs_default_branch(branch: &str, force: bool) -> (r: bool)
    ensures
        r == (branch@.len() > 0 && !force),
{
    !branch.is_empty() && !force
}

/// The first three rules, which need no ledger: `Some` with the decision
/// when one of them settles the push, `None` when the ledger must decide.
pub open spec fn decide_without_ledger(
    remote: Seq<char>,
    branch: Seq<char>,
    force: bool,
    default_branch: Option<Seq<char>>,
) -> Option<Option<Seq<char>>> {
    if branch.len() == 0 {
        Some(None)
    } else if force {
        Some(Some(force_reason(branch)))
    } else if default_branch == Some(branch) {
        Some(Some(default_branch_reason(branch, remote)))
    } else {
        None
    }
}

/// Applies the rules that need no ledger: an empty branch, a force push, a
/// push to the default branch. `None` when the ledger must decide.
pub fn early_decision(
    remote: &str,
    branch: &str,
    force: bool,
    default_branch: Option<&str>,
) -> (r: Option<Decision>)
    ensures
        match r {
            Some(d) => decide_without_ledger(remote@, branch@, force, opt_view(default_branch))
                == Some(d.reason()),
            None => decide_without_ledger(remote@, branch@, force, opt_view(default_branch))
                is None,
        },
{
    if branch.is_empty() {
        return Some(Decision::Allow);
    }
    if force {
        let mut m = "Force push to '".to_owned();
        m.append(branch);
        m.append("' requires explicit user authorization.\nSay \"I authorize\" to proceed.");
        return Some(Decision::Block(m));
    }
    let is_default = match default_branch {
        Some(d) => d.to_owned() == branch.to_owned(),
        None => false,
    };
    if is_default {
        let mut m = "'".to_owned();
        m.append(branch);
        m.append("' is the default branch of '");
        m.append(remote);
        m.append("'.\nRecommendation: push to a feature branch instead.\nTo push to '");
        m.append(branch);
        m.append("' directly, say \"I authorize\".");
        return Some(Decision::Block(m));
    }
    None
}

/// Applies the ledger rules: a branch that the agent created or that the
/// operator authorized is allowed, any other is refused.
pub fn ledger_decision(ledger: &State, repo: &str, branch: &str) -> (d: Decision)
    requires
        ledger.wf(),
    ensures
        d.reason() == (if holds(ledger.tracked_branches@, repo@, branch@) || holds(
            ledger.authorized@,
            repo@,
            branch@,
        ) {
            None
        } else {
            Some(unknown_branch_reason(repo@, branch@))
        }),
{
    if ledger.is_tracked(repo, branch) || ledger.is_authorized(repo, branch) {
        return Decision::Allow;
    }
    let mut m = "Branch '".to_owned();
    m.append(branch);
    m.append("' was not created by me and has no authorization.\nTo authorize: say \"authorize push to ");
    m.append(branch);
    m.append("\"\nTo revoke later: push-guard revoke --repo '");
    m.append(repo);
    m.append("' --branch '");
    m.append(branch);
    m.append("'");
    Decision::Block(m)
}

/// Decides on a push of `branch` to `remote` from `repo`. `default_branch`
/// is the branch that the remote's HEAD names, when git could tell.
pub fn evaluate(
    ledger: &State,
    repo: &str,
    remote: &str,
    branch: &str,
    force: bool,
    default_branch: Option<&str>,
) -> (d: Decision)
    requires
        ledger.wf(),
    ensures
        d.reason() == decide(
            ledger.tracked_branches@,
            ledger.authorized@,
            repo@,
            remote@,
            branch@,
            force,
            opt_view(default_branch),
        ),
{
    match early_decision(remote, branch, force, default_branch) {
        Some(d) => d,
        None => ledger_decision(ledger, repo, branch),
    }
}

/// The reason of the first of `pushes` that is refused, each decided with
/// the default branch at the same position of `defaults`.
pub open spec fn first_block(
    tracked_branches: RepoMap,
    authorized: RepoMap,
    repo: Seq<char>,
    pushes: Seq<(Seq<char>, Seq<char>, bool)>,
    defaults: Seq<Option<Seq<char>>>,
) -> Option<Seq<char>>
    decreases pushes.len(),
{
    if pushes.len() == 0 {
        None
    } else {
        match decide(
            tracked_branches,
            authorized,
            repo,
            pushes[0].0,
            pushes[0].1,
            pushes[0].2,
            defaults[0],
        ) {
            Some(r) => Some(r),
            None => first_block(
                tracked_branches,
                authorized,
                repo,
                pushes.drop_first(),
                defaults.drop_first(),
            ),
        }
    }
}

pub open spec fn default_views(d: Seq<Option<String>>) -> Seq<Option<Seq<char>>> {
    d.map_values(|o: Option<String>| crate::hook::opt_string_view(o))
}

/// One run of the hook on a command: first every branch that the command
/// creates is recorded for `repo`, then its pushes are decided in order
/// against the updated ledger. Returns the reason of the first refused
/// push, if any. `defaults` holds, for each push, the default branch of its
/// remote, when it is known.
pub fn hook_verdict(
    ledger: &mut State,
    repo: &str,
    command: &str,
    pushes: &Vec<PushInfo>,
    defaults: &Vec<Option<String>>,
) -> (r: Option<String>)
    requires
        old(ledger).wf(),
        pushes@.len() == defaults@.len(),
    ensures
        final(ledger).wf(),
        final(ledger).tracked_branches@ == with_branches(
            old(ledger).tracked_branches@,
            repo@,
            branch_creations(command@),
        ),
        final(ledger).authorized@ == old(ledger).authorized@,
        crate::hook::opt_string_view(r) == first_block(
            final(ledger).tracked_branches@,
            final(ledger).authorized@,
            repo@,
            push_views(pushes@),
            default_views(defaults@),
        ),
{
    let ghost t0 = ledger.tracked_branches@;
    let ghost a0 = ledger.authorized@;
    let creations = detect_branch_creations(command);
    ledger.track_all(repo, &creations);
    let ghost pv = push_views(pushes@);
    let ghost dv = default_views(defaults@);
    let mut i: usize = 0;
    assert(pv.skip(0) =~= pv);
    assert(dv.skip(0) =~= dv);
    while i < pushes.len()
        invariant
            i <= pushes@.len(),
            pushes@.len() == defaults@.len(),
            ledger.wf(),
            ledger.tracked_branches@ == with_branches(t0, repo@, branch_creations(command@)),
            ledger.authorized@ == a0,
            t0 == old(ledger).tracked_branches@,
            a0 == old(ledger).authorized@,
            pv == push_views(pushes@),
            dv == default_views(defaults@),
            first_block(ledger.tracked_branches@, ledger.authorized@, repo@, pv, dv)
                == first_block(
                ledger.tracked_branches@,
                ledger.authorized@,
                repo@,
                pv.skip(i as int),
                dv.skip(i as int),
            ),
        decreases pushes.len() - i,
    {
        let p = &pushes[i];
        let d: Option<&str> = match &defaults[i] {
            Some(s) => Some(s.as_str()),
            None => None,
        };
        proof {
            assert(pv.skip(i as int)[0] == p@);
            assert(dv.skip(i as int)[0] == opt_view(d));
            assert(pv.skip(i as int).drop_first() =~= pv.skip(i + 1));
            assert(dv.skip(i as int).drop_first() =~= dv.skip(i + 1));
        }
        match evaluate(ledger, repo, p.remote.as_str(), p.branch.as_str(), p.force, d) {
            Decision::Block(m) => {
                return Some(m);
            },
            Decision::Allow => {},
        }
        i += 1;
    }
    None
}

/// The exit status of a check: 1 for a refused push, unless it is a dry
/// run, which always ends with 0.
pub fn exit_status(d: &Decision, dry_run: bool) -> (code: u8)
    ensures
        code == (if d.reason() is Some && !dry_run { 1u8 } else { 0u8 }),
{
    match d {
        Decision::Block(_) if !dry_run => 1,
        _ => 0,
    }
}


/// The decision depends on nothing but the ledger's contents, the push and
/// the remote's default branch: two ledgers with the same contents give the
/// same decision.
pub proof fn lemma_decision_pure(
    l1: State,
    l2: State,
    repo: Seq<char>,
    remote: Seq<char>,
    branch: Seq<char>,
    force: bool,
    default_branch: Option<Seq<char>>,
)
    requires
        l1.tracked_branches@ == l2.tracked_branches@,
        l1.authorized@ == l2.authorized@,
    ensures
        decide(l1.tracked_branches@, l1.authorized@, repo, remote, branch, force, default_branch)
            == decide(
            l2.tracked_branches@,
            l2.authorized@,
            repo,
            remote,
            branch,
            force,
            default_branch,
        ),
{
}

/// A force push of a named branch is refused whatever the ledger holds and
/// whatever the remote's default branch is; a push to the default branch is
/// refused whatever the ledger holds.
pub proof fn lemma_force_and_default_precedence(
    tracked_branches: RepoMap,
    authorized: RepoMap,
    repo: Seq<char>,
    remote: Seq<char>,
    branch: Seq<char>,
    default_branch: Option<Seq<char>>,
)
    requires
        branch.len() > 0,
    ensures
        decide(tracked_branches, authorized, repo, remote, branch, true, default_branch)
            == Some(force_reason(branch)),
        decide(tracked_branches, authorized, repo, remote, branch, false, Some(branch)) == Some(
            default_branch_reason(branch, remote),
        ),
{
}

} // verus!
