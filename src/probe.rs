//! Reading the answers of git: the upstream of the current branch and the
//! default branch of a remote, from the text that git prints.

use crate::text::{
    chars_of, has_prefix, lines, slice_chars, split_lines, split_once, split_once_chars,
    starts_with, string_of, trim, trim_chars,
};
use vstd::prelude::*;

verus! {

/// The (remote, branch) that an upstream name `remote/branch` stands for.
pub open spec fn upstream_pair(output: Seq<char>) -> Option<(Seq<char>, Seq<char>)> {
    split_once(trim(output), '/')
}

/// Reads the output of `git rev-parse --abbrev-ref @{u}`: the text up to
/// the first `/` is the remote, the rest the branch.
pub fn tracking_pair(output: &str) -> (r: Option<(String, String)>)
    ensures
        match r {
            Some(p) => upstream_pair(output@) == Some((p.0@, p.1@)),
            None => upstream_pair(output@) is None,
        },
{
    let cs = chars_of(output);
    let t = trim_chars(&cs);
    match split_once_chars(&t, '/') {
        Some((a, b)) => Some((string_of(&a), string_of(&b))),
        None => None,
    }
}

/// The default branch that a symbolic reference `remote/branch` names; none
/// when the output is blank or names another remote.
pub open spec fn symref_default(output: Seq<char>, remote: Seq<char>) -> Option<Seq<char>> {
    let t = trim(output);
    let p = remote + "/"@;
    if t.len() > 0 && has_prefix(t, p) {
        Some(t.skip(p.len() as int))
    } else {
        None
    }
}

/// Reads the output of `git symbolic-ref refs/remotes/<remote>/HEAD --short`.
pub fn default_from_symref(output: &str, remote: &str) -> (r: Option<String>)
    ensures
        match r {
            Some(b) => symref_default(output@, remote@) == Some(b@),
            None => symref_default(output@, remote@) is None,
        },
{
    let cs = chars_of(output);
    let t = trim_chars(&cs);
    let mut p = chars_of(remote);
    p.push('/');
    assert(p@ =~= remote@ + "/"@) by {
        reveal_strlit("/");
    }
    if t.len() > 0 && prefix_of(&t, &p) {
        let rest = slice_chars(&t, p.len(), t.len());
        assert(rest@ =~= t@.skip(p@.len() as int));
        Some(string_of(&rest))
    } else {
        None
    }
}

fn prefix_of(t: &Vec<char>, p: &Vec<char>) -> (r: bool)
    ensures
        r == has_prefix(t@, p@),
{
    if t.len() < p.len() {
        return false;
    }
    let mut i: usize = 0;
    while i < p.len()
        invariant
            i <= p@.len() <= t@.len(),
            forall|j: int| 0 <= j < i ==> t@[j] == p@[j],
        decreases p.len() - i,
    {
        if t[i] != p[i] {
            assert(t@.take(p@.len() as int)[i as int] != p@[i as int]);
            return false;
        }
        i += 1;
    }
    assert(t@.take(p@.len() as int) =~= p@);
    true
}

/// The branch that one line of `git remote show` gives as `HEAD branch: x`.
pub open spec fn head_branch_of(line: Seq<char>) -> Option<Seq<char>> {
    let t = trim(line);
    if has_prefix(t, "HEAD branch:"@) {
        Some(trim(t.skip("HEAD branch:"@.len() as int)))
    } else {
        None
    }
}

/// The branch that the first `HEAD branch:` line among `ls` gives.
pub open spec fn first_head_branch(ls: Seq<Seq<char>>) -> Option<Seq<char>>
    decreases ls.len(),
{
    if ls.len() == 0 {
        None
    } else {
        match head_branch_of(ls[0]) {
            Some(b) => Some(b),
            None => first_head_branch(ls.drop_first()),
        }
    }
}

/// Reads the output of `git remote show <remote>`.
pub fn default_from_remote_show(output: &str) -> (r: Option<String>)
    ensures
        match r {
            Some(b) => first_head_branch(lines(output@)) == Some(b@),
            None => first_head_branch(lines(output@)) is None,
        },
{
    let cs = chars_of(output);
    let ls = split_lines(&cs);
    let mut i: usize = 0;
    assert(crate::text::views(ls@).skip(0) =~= crate::text::views(ls@));
    while i < ls.len()
        invariant
            i <= ls@.len(),
            crate::text::views(ls@) == lines(output@),
            first_head_branch(lines(output@)) == first_head_branch(
                crate::text::views(ls@).skip(i as int),
            ),
        decreases ls.len() - i,
    {
        let ghost rest = crate::text::views(ls@).skip(i as int);
        assert(rest[0] == ls@[i as int]@);
        assert(rest.drop_first() =~= crate::text::views(ls@).skip(i + 1));
        let t = trim_chars(&ls[i]);
        if starts_with(&t, "HEAD branch:") {
            let n = chars_of("HEAD branch:").len();
            let after = slice_chars(&t, n, t.len());
            assert(after@ =~= t@.skip("HEAD branch:"@.len() as int));
            let b = trim_chars(&after);
            return Some(string_of(&b));
        }
        i += 1;
    }
    None
}

} // verus!
