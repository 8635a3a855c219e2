//! Recognition of branch creations and pushes in a shell command line.
//!
//! The command is cut into sub-commands at every `;` and `&`, and each
//! sub-command into whitespace-separated words. Quoting, escapes and
//! expansions are not interpreted.

use crate::text::{
    is_separator, is_space, lemma_segments_chars, lemma_words_chars, chars_of, is_word, segments, slice_chars, split_once, split_once_chars, split_segments,
    split_words, string_of, string_views, views, words,
};
use vstd::prelude::*;

verus! {

/// A word that begins with `-`.
pub open spec fn is_flag(t: Seq<char>) -> bool {
    t.len() > 0 && t[0] == '-'
}

/// A word that asks `checkout` or `switch` to create a branch: `-b`, `-B`,
/// `-c`, `-C`, or one of these with more short flags or a value attached.
pub open spec fn is_create_flag(t: Seq<char>) -> bool {
    t.len() >= 2 && t[0] == '-' && (t[1] == 'b' || t[1] == 'B' || t[1] == 'c' || t[1] == 'C')
}

pub open spec fn has_create_flag(rest: Seq<Seq<char>>) -> bool {
    exists|j: int| 0 <= j < rest.len() && is_create_flag(#[trigger] rest[j])
}

/// The last word of `rest` that is not a flag.
pub open spec fn last_operand(rest: Seq<Seq<char>>) -> Option<Seq<char>>
    decreases rest.len(),
{
    if rest.len() == 0 {
        None
    } else if !is_flag(rest.last()) {
        Some(rest.last())
    } else {
        last_operand(rest.drop_last())
    }
}

/// The first word of `rest` that is not a flag.
pub open spec fn first_operand(rest: Seq<Seq<char>>) -> Option<Seq<char>>
    decreases rest.len(),
{
    if rest.len() == 0 {
        None
    } else if !is_flag(rest[0]) {
        Some(rest[0])
    } else {
        first_operand(rest.drop_first())
    }
}

/// The branch that the words `t` create at position `i`, where `t[i]` is
/// `git`: with `checkout` or `switch` and a create flag after it, the last
/// operand after the subcommand; with `branch`, the first one.
pub open spec fn creation_at(t: Seq<Seq<char>>, i: int) -> Option<Seq<char>> {
    if 0 <= i && i + 1 < t.len() && t[i] == "git"@ {
        let rest = t.subrange(i + 2, t.len() as int);
        if t[i + 1] == "checkout"@ || t[i + 1] == "switch"@ {
            if has_create_flag(rest) {
                last_operand(rest)
            } else {
                None
            }
        } else if t[i + 1] == "branch"@ {
            first_operand(rest)
        } else {
            None
        }
    } else {
        None
    }
}

/// The branches created at the positions before `n`, in order.
pub open spec fn creations_upto(t: Seq<Seq<char>>, n: int) -> Seq<Seq<char>>
    decreases n,
{
    if n <= 0 {
        Seq::empty()
    } else {
        let p = creations_upto(t, n - 1);
        match creation_at(t, n - 1) {
            Some(b) => p.push(b),
            None => p,
        }
    }
}

/// The branches that the sub-commands `segs` create, in order.
pub open spec fn creations_in(segs: Seq<Seq<char>>) -> Seq<Seq<char>>
    decreases segs.len(),
{
    if segs.len() == 0 {
        Seq::empty()
    } else {
        let t = words(segs.last());
        creations_in(segs.drop_last()) + creations_upto(t, t.len() as int)
    }
}

/// The branches that a command line creates.
pub open spec fn branch_creations(command: Seq<char>) -> Seq<Seq<char>> {
    creations_in(segments(command))
}

fn any_create_flag(t: &Vec<Vec<char>>, from: usize) -> (r: bool)
    requires
        from <= t.len(),
    ensures
        r == has_create_flag(views(t@).subrange(from as int, t@.len() as int)),
{
    let ghost rest = views(t@).subrange(from as int, t@.len() as int);
    let mut k: usize = from;
    while k < t.len()
        invariant
            from <= k <= t.len(),
            rest == views(t@).subrange(from as int, t@.len() as int),
            forall|j: int| 0 <= j < k - from ==> !is_create_flag(#[trigger] rest[j]),
        decreases t.len() - k,
    {
        let w = &t[k];
        if w.len() >= 2 && w[0] == '-' && (w[1] == 'b' || w[1] == 'B' || w[1] == 'c' || w[1]
            == 'C') {
            assert(is_create_flag(rest[k - from]));
            return true;
        }
        k += 1;
    }
    false
}

fn last_operand_index(t: &Vec<Vec<char>>, from: usize) -> (r: Option<usize>)
    requires
        from <= t.len(),
    ensures
        match r {
            Some(k) => from <= k < t.len() && last_operand(
                views(t@).subrange(from as int, t@.len() as int),
            ) == Some(t@[k as int]@),
            None => last_operand(views(t@).subrange(from as int, t@.len() as int)) is None,
        },
{
    let mut k: usize = t.len();
    while k > from
        invariant
            from <= k <= t.len(),
            last_operand(views(t@).subrange(from as int, t@.len() as int)) == last_operand(
                views(t@).subrange(from as int, k as int),
            ),
        decreases k,
    {
        let ghost part = views(t@).subrange(from as int, k as int);
        assert(part.last() == t@[k - 1]@);
        if !(t[k - 1].len() > 0 && t[k - 1][0] == '-') {
            return Some(k - 1);
        }
        assert(part.drop_last() =~= views(t@).subrange(from as int, k - 1));
        k -= 1;
    }
    None
}

fn first_operand_index(t: &Vec<Vec<char>>, from: usize) -> (r: Option<usize>)
    requires
        from <= t.len(),
    ensures
        match r {
            Some(k) => from <= k < t.len() && first_operand(
                views(t@).subrange(from as int, t@.len() as int),
            ) == Some(t@[k as int]@),
            None => first_operand(views(t@).subrange(from as int, t@.len() as int)) is None,
        },
{
    let mut k: usize = from;
    while k < t.len()
        invariant
            from <= k <= t.len(),
            first_operand(views(t@).subrange(from as int, t@.len() as int)) == first_operand(
                views(t@).subrange(k as int, t@.len() as int),
            ),
        decreases t.len() - k,
    {
        let ghost part = views(t@).subrange(k as int, t@.len() as int);
        assert(part[0] == t@[k as int]@);
        if !(t[k].len() > 0 && t[k][0] == '-') {
            return Some(k);
        }
        assert(part.drop_first() =~= views(t@).subrange(k + 1, t@.len() as int));
        k += 1;
    }
    None
}

/// The position in `t` of the branch created at position `i`, if any.
fn creation_index(t: &Vec<Vec<char>>, i: usize) -> (r: Option<usize>)
    requires
        i < t.len(),
    ensures
        match r {
            Some(k) => k < t.len() && creation_at(views(t@), i as int) == Some(t@[k as int]@),
            None => creation_at(views(t@), i as int) is None,
        },
{
    if i + 1 >= t.len() || !is_word(&t[i], "git") {
        return None;
    }
    let sub = &t[i + 1];
    if is_word(sub, "checkout") || is_word(sub, "switch") {
        if any_create_flag(t, i + 2) {
            last_operand_index(t, i + 2)
        } else {
            None
        }
    } else if is_word(sub, "branch") {
        first_operand_index(t, i + 2)
    } else {
        None
    }
}

/// Every branch that `command` creates with `git checkout`, `git switch` or
/// `git branch`, over all of its sub-commands, in order.
pub fn detect_branch_creations(command: &str) -> (r: Vec<String>)
    ensures
        string_views(r@) == branch_creations(command@),
        forall|m: int|
            0 <= m < r@.len() ==> plain_word(#[trigger] r@[m]@) && !is_flag(r@[m]@),
{
    let cs = chars_of(command);
    let segs = split_segments(&cs);
    let mut out: Vec<String> = Vec::new();
    let mut s: usize = 0;
    while s < segs.len()
        invariant
            s <= segs.len(),
            views(segs@) == segments(command@),
            string_views(out@) == creations_in(views(segs@).take(s as int)),
        decreases segs.len() - s,
    {
        let t = split_words(&segs[s]);
        let ghost before = string_views(out@);
        let mut i: usize = 0;
        while i < t.len()
            invariant
                i <= t.len(),
                string_views(out@) == before + creations_upto(views(t@), i as int),
            decreases t.len() - i,
        {
            match creation_index(&t, i) {
                Some(k) => {
                    let b = string_of(&t[k]);
                    assert(creations_upto(views(t@), i + 1) == creations_upto(views(t@), i as int).push(b@));
                    let ghost prev = out@;
                    out.push(b);
                    assert(string_views(out@) =~= string_views(prev).push(b@));
                    assert(string_views(out@) =~= before + creations_upto(views(t@), i + 1));
                },
                None => {
                    assert(string_views(out@) =~= before + creations_upto(views(t@), i + 1));
                },
            }
            i += 1;
        }
        proof {
            let segv = views(segs@);
            assert(segv.take(s + 1).drop_last() =~= segv.take(s as int));
            assert(segv.take(s + 1).last() == segs@[s as int]@);
        }
        s += 1;
    }
    assert(views(segs@).take(s as int) =~= views(segs@));
    proof {
        lemma_created_names_are_words(command@);
    }
    assert forall|m: int| 0 <= m < out@.len() implies plain_word(#[trigger] out@[m]@) && !is_flag(
        out@[m]@,
    ) by {
        assert(string_views(out@) == branch_creations(command@));
        assert(string_views(out@)[m] == out@[m]@);
        assert(plain_word(branch_creations(command@)[m]));
    }
    out
}


/// A push that a command line asks for.
pub struct PushInfo {
    pub remote: String,
    pub branch: String,
    pub force: bool,
}

impl View for PushInfo {
    type V = (Seq<char>, Seq<char>, bool);

    open spec fn view(&self) -> (Seq<char>, Seq<char>, bool) {
        (self.remote@, self.branch@, self.force)
    }
}

/// What git says of the working copy, for pushes that do not name their
/// remote or branch: the upstream of the current branch as (remote, branch),
/// and the current branch.
pub struct BranchContext {
    pub upstream: Option<(String, String)>,
    pub current_branch: Option<String>,
}

impl BranchContext {
    /// A context where neither answer is known.
    pub fn unknown() -> (r: BranchContext)
        ensures
            r.upstream_view() is None,
            r.current_view() is None,
    {
        BranchContext { upstream: None, current_branch: None }
    }

    pub open spec fn upstream_view(&self) -> Option<(Seq<char>, Seq<char>)> {
        match self.upstream {
            Some(p) => Some((p.0@, p.1@)),
            None => None,
        }
    }

    pub open spec fn current_view(&self) -> Option<Seq<char>> {
        match self.current_branch {
            Some(b) => Some(b@),
            None => None,
        }
    }
}

pub open spec fn is_force_flag(a: Seq<char>) -> bool {
    a == "--force"@ || a == "-f"@ || a == "--force-with-lease"@ || a == "--force-if-includes"@
}

/// A flag of `git push` whose value is the next word.
pub open spec fn takes_value(a: Seq<char>) -> bool {
    a == "-o"@ || a == "--push-option"@ || a == "--receive-pack"@ || a == "--exec"@
}

/// The push arguments from position `i` on, read left to right: whether a
/// force flag occurs, and the positional words in order.
pub open spec fn scan_args(args: Seq<Seq<char>>, i: int) -> (bool, Seq<Seq<char>>)
    decreases args.len() + 1 - i,
{
    if i < 0 || i >= args.len() {
        (false, Seq::empty())
    } else {
        let a = args[i];
        if is_force_flag(a) {
            (true, scan_args(args, i + 1).1)
        } else if takes_value(a) {
            scan_args(args, i + 2)
        } else if is_flag(a) {
            scan_args(args, i + 1)
        } else {
            let r = scan_args(args, i + 1);
            (r.0, seq![a] + r.1)
        }
    }
}

/// The destination of a refspec `src:dst`, the part after the first `:`; a
/// word without `:` names itself.
pub open spec fn destination(b: Seq<char>) -> Seq<char> {
    match split_once(b, ':') {
        Some(p) => p.1,
        None => b,
    }
}

pub open spec fn or_empty(b: Option<Seq<char>>) -> Seq<char> {
    match b {
        Some(x) => x,
        None => Seq::empty(),
    }
}

/// The (remote, branch) of a push with positional words `pos`.
pub open spec fn resolve(
    pos: Seq<Seq<char>>,
    upstream: Option<(Seq<char>, Seq<char>)>,
    current: Option<Seq<char>>,
) -> (Seq<char>, Seq<char>) {
    if pos.len() == 0 {
        match upstream {
            Some(p) => p,
            None => ("origin"@, or_empty(current)),
        }
    } else if pos.len() == 1 {
        (pos[0], or_empty(current))
    } else {
        (pos[0], destination(pos[1]))
    }
}

/// The push that the arguments `args` of `git push` describe.
pub open spec fn push_intent(args: Seq<Seq<char>>, ctx: BranchContext) -> (
    Seq<char>,
    Seq<char>,
    bool,
) {
    let (force, pos) = scan_args(args, 0);
    let (remote, branch) = resolve(pos, ctx.upstream_view(), ctx.current_view());
    (remote, branch, force)
}

/// Whether a push with arguments `args` names no branch of its own, so
/// that the upstream or the current branch decides it.
pub open spec fn needs_context(args: Seq<Seq<char>>) -> bool {
    scan_args(args, 0).1.len() < 2
}

/// The first position `i >= from` with `t[i] == git` and `t[i + 1] == push`.
pub open spec fn push_position(t: Seq<Seq<char>>, from: int) -> Option<int>
    decreases t.len() - from,
{
    if from < 0 || from + 1 >= t.len() {
        None
    } else if t[from] == "git"@ && t[from + 1] == "push"@ {
        Some(from)
    } else {
        push_position(t, from + 1)
    }
}

/// The pushes that the sub-commands `segs` ask for: at most one each.
pub open spec fn pushes_in(segs: Seq<Seq<char>>, ctx: BranchContext) -> Seq<
    (Seq<char>, Seq<char>, bool),
>
    decreases segs.len(),
{
    if segs.len() == 0 {
        Seq::empty()
    } else {
        let t = words(segs.last());
        let here = match push_position(t, 0) {
            Some(i) => seq![push_intent(t.subrange(i + 2, t.len() as int), ctx)],
            None => Seq::empty(),
        };
        pushes_in(segs.drop_last(), ctx) + here
    }
}

/// The pushes that a command line asks for.
pub open spec fn all_pushes(command: Seq<char>, ctx: BranchContext) -> Seq<
    (Seq<char>, Seq<char>, bool),
> {
    pushes_in(segments(command), ctx)
}

pub open spec fn arg_views(args: Seq<&str>) -> Seq<Seq<char>> {
    args.map_values(|a: &str| a@)
}

pub open spec fn push_views(v: Seq<PushInfo>) -> Seq<(Seq<char>, Seq<char>, bool)> {
    v.map_values(|p: PushInfo| p@)
}

fn is_force_word(a: &Vec<char>) -> (r: bool)
    ensures
        r == is_force_flag(a@),
{
    is_word(a, "--force") || is_word(a, "-f") || is_word(a, "--force-with-lease") || is_word(
        a,
        "--force-if-includes",
    )
}

fn takes_value_word(a: &Vec<char>) -> (r: bool)
    ensures
        r == takes_value(a@),
{
    is_word(a, "-o") || is_word(a, "--push-option") || is_word(a, "--receive-pack") || is_word(
        a,
        "--exec",
    )
}

/// The destination of a refspec, as characters.
fn refspec_destination(b: &Vec<char>) -> (r: Vec<char>)
    ensures
        r@ == destination(b@),
{
    match split_once_chars(b, ':') {
        Some((_, dst)) => dst,
        None => {
            let r = slice_chars(b, 0, b.len());
            assert(r@ =~= b@);
            r
        },
    }
}

fn fallback_branch(ctx: &BranchContext) -> (r: String)
    ensures
        r@ == or_empty(ctx.current_view()),
{
    match &ctx.current_branch {
        Some(b) => b.clone(),
        None => String::new(),
    }
}

/// The push described by the words of `t` from position `from` on.
fn push_from_words(t: &Vec<Vec<char>>, from: usize, ctx: &BranchContext) -> (r: (PushInfo, bool))
    requires
        from <= t.len(),
    ensures
        r.0@ == push_intent(views(t@).subrange(from as int, t@.len() as int), *ctx),
        r.1 == needs_context(views(t@).subrange(from as int, t@.len() as int)),
{
    let ghost args = views(t@).subrange(from as int, t@.len() as int);
    let ghost mut pos: Seq<Seq<char>> = Seq::empty();
    let mut force = false;
    let mut npos: usize = 0;
    let mut first: usize = 0;
    let mut second: usize = 0;
    let mut i: usize = from;
    while i < t.len()
        invariant
            from <= i,
            args == views(t@).subrange(from as int, t@.len() as int),
            npos as int == pos.len() || (npos >= 2 && pos.len() >= 2),
            i <= t.len(),
            npos >= 1 ==> first < t.len() && pos[0] == t@[first as int]@,
            npos >= 2 ==> second < t.len() && pos[1] == t@[second as int]@,
            scan_args(args, 0) == (
                force || scan_args(args, i - from).0,
                pos + scan_args(args, i - from).1,
            ),
        decreases t.len() - i,
    {
        let a = &t[i];
        let ghost j = i - from;
        assert(args[j] == a@);
        if is_force_word(a) {
            force = true;
            i += 1;
        } else if takes_value_word(a) {
            if i + 1 < t.len() {
                i += 2;
            } else {
                assert(scan_args(args, j + 2) == (false, Seq::<Seq<char>>::empty()));
                assert(scan_args(args, j + 1) == (false, Seq::<Seq<char>>::empty()));
                i = t.len();
            }
        } else if a.len() > 0 && a[0] == '-' {
            i += 1;
        } else {
            proof {
                assert((pos + seq![a@]) + scan_args(args, j + 1).1 =~= pos + (seq![a@] + scan_args(args, j + 1).1));
                pos = pos + seq![a@];
            }
            if npos == 0 {
                first = i;
            } else if npos == 1 {
                second = i;
            }
            if npos < 2 {
                npos += 1;
            }
            i += 1;
        }
    }
    assert(scan_args(args, i - from) == (false, Seq::<Seq<char>>::empty()));
    assert(pos + Seq::<Seq<char>>::empty() =~= pos);
    let (remote, branch) = if npos == 0 {
        match &ctx.upstream {
            Some(p) => (p.0.clone(), p.1.clone()),
            None => ("origin".to_owned(), fallback_branch(ctx)),
        }
    } else if npos == 1 {
        (string_of(&t[first]), fallback_branch(ctx))
    } else {
        (string_of(&t[first]), string_of(&refspec_destination(&t[second])))
    };
    (PushInfo { remote, branch, force }, npos < 2)
}

/// The push that the arguments of `git push` describe. Without positional
/// words the upstream of the current branch is used, or else `origin` and
/// the current branch; with one, that remote and the current branch; with
/// two or more, the first is the remote and the second names the branch,
/// where a refspec `src:dst` names `dst`. An unknown current branch gives an
/// empty branch.
pub fn parse_push_args(args: &[&str], ctx: &BranchContext) -> (r: PushInfo)
    ensures
        r@ == push_intent(arg_views(args@), *ctx),
{
    let mut t: Vec<Vec<char>> = Vec::new();
    let mut i: usize = 0;
    while i < args.len()
        invariant
            i <= args@.len(),
            views(t@) == arg_views(args@).take(i as int),
        decreases args.len() - i,
    {
        let a: &str = args[i];
        let w = chars_of(a);
        let ghost prev = t@;
        t.push(w);
        assert(views(t@) =~= views(prev).push(w@));
        assert(arg_views(args@).take(i + 1) =~= arg_views(args@).take(i as int).push(a@));
        assert(views(t@) =~= arg_views(args@).take(i + 1));
        i += 1;
    }
    assert(views(t@).subrange(0, t@.len() as int) =~= arg_views(args@));
    push_from_words(&t, 0, ctx).0
}

fn push_index(t: &Vec<Vec<char>>) -> (r: Option<usize>)
    ensures
        match r {
            Some(i) => i + 2 <= t.len() && push_position(views(t@), 0) == Some(i as int),
            None => push_position(views(t@), 0) is None,
        },
{
    let mut i: usize = 0;
    while i < t.len() && i + 1 < t.len()
        invariant
            push_position(views(t@), 0) == push_position(views(t@), i as int),
        decreases t.len() - i,
    {
        if is_word(&t[i], "git") && is_word(&t[i + 1], "push") {
            return Some(i);
        }
        i += 1;
    }
    None
}

/// Every push in `command`: the first `git push` of each sub-command, in
/// order.
pub fn detect_all_pushes(command: &str, ctx: &BranchContext) -> (r: Vec<PushInfo>)
    ensures
        push_views(r@) == all_pushes(command@, *ctx),
{
    let cs = chars_of(command);
    let segs = split_segments(&cs);
    let mut out: Vec<PushInfo> = Vec::new();
    let mut s: usize = 0;
    while s < segs.len()
        invariant
            s <= segs.len(),
            views(segs@) == segments(command@),
            push_views(out@) == pushes_in(views(segs@).take(s as int), *ctx),
        decreases segs.len() - s,
    {
        let t = split_words(&segs[s]);
        let ghost prev = out@;
        match push_index(&t) {
            Some(i) => {
                let p = push_from_words(&t, i + 2, ctx).0;
                out.push(p);
                assert(push_views(out@) =~= push_views(prev).push(p@));
            },
            None => {},
        }
        proof {
            let segv = views(segs@);
            assert(segv.take(s + 1).drop_last() =~= segv.take(s as int));
            assert(segv.take(s + 1).last() == segs@[s as int]@);
            assert(push_views(out@) =~= pushes_in(segv.take(s + 1), *ctx));
        }
        s += 1;
    }
    assert(views(segs@).take(s as int) =~= views(segs@));
    out
}


/// Whether some push of the sub-commands `segs` names no branch of its own.
pub open spec fn context_needed_in(segs: Seq<Seq<char>>) -> bool
    decreases segs.len(),
{
    if segs.len() == 0 {
        false
    } else {
        let t = words(segs.last());
        context_needed_in(segs.drop_last()) || match push_position(t, 0) {
            Some(i) => needs_context(t.subrange(i + 2, t.len() as int)),
            None => false,
        }
    }
}

/// Whether some push of a command line needs the upstream or the current
/// branch to be resolved.
pub open spec fn command_needs_context(command: Seq<char>) -> bool {
    context_needed_in(segments(command))
}

/// Whether git must be asked about the working copy before the pushes of
/// `command` can be resolved.
pub fn pushes_need_context(command: &str) -> (r: bool)
    ensures
        r == command_needs_context(command@),
{
    let cs = chars_of(command);
    let segs = split_segments(&cs);
    let unknown = BranchContext::unknown();
    let mut need = false;
    let mut s: usize = 0;
    while s < segs.len()
        invariant
            s <= segs.len(),
            views(segs@) == segments(command@),
            need == context_needed_in(views(segs@).take(s as int)),
        decreases segs.len() - s,
    {
        let t = split_words(&segs[s]);
        let here = match push_index(&t) {
            Some(i) => push_from_words(&t, i + 2, &unknown).1,
            None => false,
        };
        need = need || here;
        proof {
            let segv = views(segs@);
            assert(segv.take(s + 1).drop_last() =~= segv.take(s as int));
            assert(segv.take(s + 1).last() == segs@[s as int]@);
        }
        s += 1;
    }
    assert(views(segs@).take(s as int) =~= views(segs@));
    need
}

/// When every push of the sub-commands names its remote and branch, what
/// git says of the working copy does not change the pushes.
pub proof fn lemma_context_unused_in(segs: Seq<Seq<char>>, c1: BranchContext, c2: BranchContext)
    requires
        !context_needed_in(segs),
    ensures
        pushes_in(segs, c1) == pushes_in(segs, c2),
    decreases segs.len(),
{
    if segs.len() > 0 {
        lemma_context_unused_in(segs.drop_last(), c1, c2);
    }
}

/// When no push of a command lacks its remote or branch, the pushes are the
/// same whatever git says of the working copy.
pub proof fn lemma_context_unused(command: Seq<char>, c1: BranchContext, c2: BranchContext)
    requires
        !command_needs_context(command),
    ensures
        all_pushes(command, c1) == all_pushes(command, c2),
{
    lemma_context_unused_in(segments(command), c1, c2);
}


/// A word that can stand in one sub-command: non-empty, without whitespace,
/// `;` or `&`.
pub open spec fn plain_word(w: Seq<char>) -> bool {
    w.len() > 0 && forall|j: int| 0 <= j < w.len() ==> !is_space(#[trigger] w[j]) && !is_separator(w[j])
}

proof fn lemma_last_operand(rest: Seq<Seq<char>>)
    ensures
        last_operand(rest) matches Some(b) ==> rest.contains(b) && !is_flag(b),
    decreases rest.len(),
{
    if rest.len() > 0 {
        lemma_last_operand(rest.drop_last());
        if let Some(b) = last_operand(rest) {
            if is_flag(rest.last()) {
                let j = choose|j: int| 0 <= j < rest.drop_last().len() && rest.drop_last()[j] == b;
                assert(rest[j] == b);
            } else {
                assert(rest[rest.len() - 1] == b);
            }
        }
    }
}

proof fn lemma_first_operand(rest: Seq<Seq<char>>)
    ensures
        first_operand(rest) matches Some(b) ==> rest.contains(b) && !is_flag(b),
    decreases rest.len(),
{
    if rest.len() > 0 {
        lemma_first_operand(rest.drop_first());
        if let Some(b) = first_operand(rest) {
            if is_flag(rest[0]) {
                let j = choose|j: int| 0 <= j < rest.drop_first().len() && rest.drop_first()[j] == b;
                assert(rest[j + 1] == b);
            } else {
                assert(rest[0] == b);
            }
        }
    }
}

proof fn lemma_creation_at(t: Seq<Seq<char>>, i: int)
    ensures
        creation_at(t, i) matches Some(b) ==> t.contains(b) && !is_flag(b),
{
    if 0 <= i && i + 1 < t.len() {
        let rest = t.subrange(i + 2, t.len() as int);
        lemma_last_operand(rest);
        lemma_first_operand(rest);
        if let Some(b) = creation_at(t, i) {
            let j = choose|j: int| 0 <= j < rest.len() && rest[j] == b;
            assert(t[i + 2 + j] == b);
        }
    }
}

proof fn lemma_creations_upto(t: Seq<Seq<char>>, n: int)
    requires
        forall|k: int| 0 <= k < t.len() ==> plain_word(#[trigger] t[k]),
    ensures
        forall|m: int|
            0 <= m < creations_upto(t, n).len() ==> plain_word(#[trigger] creations_upto(t, n)[m])
                && !is_flag(creations_upto(t, n)[m]),
    decreases n,
{
    if n > 0 {
        lemma_creations_upto(t, n - 1);
        lemma_creation_at(t, n - 1);
        if let Some(b) = creation_at(t, n - 1) {
            let k = choose|k: int| 0 <= k < t.len() && t[k] == b;
            assert(plain_word(t[k]));
            assert forall|m: int| 0 <= m < creations_upto(t, n).len() implies plain_word(
                #[trigger] creations_upto(t, n)[m],
            ) && !is_flag(creations_upto(t, n)[m]) by {
                if m < creations_upto(t, n - 1).len() {
                    assert(creations_upto(t, n)[m] == creations_upto(t, n - 1)[m]);
                }
            }
        }
    }
}

proof fn lemma_creations_in(segs: Seq<Seq<char>>)
    requires
        forall|k: int, j: int|
            0 <= k < segs.len() && 0 <= j < segs[k].len() ==> !is_separator(#[trigger] segs[k][j]),
    ensures
        forall|m: int|
            0 <= m < creations_in(segs).len() ==> plain_word(#[trigger] creations_in(segs)[m])
                && !is_flag(creations_in(segs)[m]),
    decreases segs.len(),
{
    if segs.len() > 0 {
        let pre = segs.drop_last();
        assert forall|k: int, j: int| 0 <= k < pre.len() && 0 <= j < pre[k].len() implies !is_separator(
            #[trigger] pre[k][j],
        ) by {
            assert(pre[k] == segs[k]);
        }
        lemma_creations_in(pre);
        let seg = segs.last();
        let t = words(seg);
        lemma_words_chars(seg);
        assert forall|k: int| 0 <= k < t.len() implies plain_word(#[trigger] t[k]) by {
            assert forall|j: int| 0 <= j < t[k].len() implies !is_space(#[trigger] t[k][j])
                && !is_separator(t[k][j]) by {
                assert(seg.contains(t[k][j]));
                let x = choose|x: int| 0 <= x < seg.len() && seg[x] == t[k][j];
                assert(segs[segs.len() - 1][x] == seg[x]);
            }
        }
        lemma_creations_upto(t, t.len() as int);
        let a = creations_in(pre);
        let b = creations_upto(t, t.len() as int);
        assert forall|m: int| 0 <= m < creations_in(segs).len() implies plain_word(
            #[trigger] creations_in(segs)[m],
        ) && !is_flag(creations_in(segs)[m]) by {
            if m < a.len() {
                assert(creations_in(segs)[m] == a[m]);
            } else {
                assert(creations_in(segs)[m] == b[m - a.len()]);
            }
        }
    }
}

/// Every branch that a command line creates is a single word of one of its
/// sub-commands: non-empty, without whitespace, `;` or `&`, and not a flag.
pub proof fn lemma_created_names_are_words(command: Seq<char>)
    ensures
        forall|m: int|
            0 <= m < branch_creations(command).len() ==> plain_word(
                #[trigger] branch_creations(command)[m],
            ) && !is_flag(branch_creations(command)[m]),
{
    lemma_segments_chars(command);
    lemma_creations_in(segments(command));
}

} // verus!
