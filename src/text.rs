//! Character-level helpers: whitespace, splitting and trimming.

use vstd::prelude::*;
use vstd::seq_lib::group_filter_ensures;
use vstd::std_specs::iter::IteratorSpec;

verus! {

broadcast use vstd::string::group_string_axioms;

/// The characters of a string, in order.
pub fn chars_of(s: &str) -> (r: Vec<char>)
    ensures
        r@ == s@,
{
    let mut r: Vec<char> = Vec::new();
    let mut it = s.chars();
    loop
        invariant
            r@ + it.remaining() == s@,
            it.decrease() is Some,
        ensures
            r@ == s@,
        decreases it.decrease()->0,
    {
        match it.next() {
            Some(c) => r.push(c),
            None => {
                assert(r@ =~= s@);
                break;
            },
        }
    }
    r
}


/// Relies on `FromIterator<char>` for `String`: the collected string holds
/// exactly the given characters, in order.
#[verifier::external_body]
pub(crate) fn string_of(cs: &Vec<char>) -> (r: String)
    ensures
        r@ == cs@,
{
    cs.iter().collect()
}

/// Unicode `White_Space`, the set of characters that `char::is_whitespace`
/// and `str::split_whitespace` treat as blanks.
pub open spec fn is_space(c: char) -> bool {
    let u = c as u32;
    (0x09 <= u && u <= 0x0D) || u == 0x20 || u == 0x85 || u == 0xA0 || u == 0x1680 || (0x2000
        <= u && u <= 0x200A) || u == 0x2028 || u == 0x2029 || u == 0x202F || u == 0x205F || u
        == 0x3000
}

pub fn is_space_char(c: char) -> (r: bool)
    ensures
        r == is_space(c),
{
    let u = c as u32;
    (0x09 <= u && u <= 0x0D) || u == 0x20 || u == 0x85 || u == 0xA0 || u == 0x1680 || (0x2000
        <= u && u <= 0x200A) || u == 0x2028 || u == 0x2029 || u == 0x202F || u == 0x205F || u
        == 0x3000
}

/// The pieces of `s` between the characters that satisfy `sep`, as
/// `str::split` yields them: `n` separators give `n + 1` pieces, some
/// possibly empty.
pub open spec fn split_by(s: Seq<char>, sep: spec_fn(char) -> bool) -> Seq<Seq<char>>
    decreases s.len(),
{
    if s.len() == 0 {
        seq![Seq::empty()]
    } else {
        let p = split_by(s.drop_last(), sep);
        if sep(s.last()) {
            p.push(Seq::empty())
        } else {
            p.update(p.len() - 1, p.last().push(s.last()))
        }
    }
}

pub proof fn lemma_split_by_nonempty(s: Seq<char>, sep: spec_fn(char) -> bool)
    ensures
        split_by(s, sep).len() >= 1,
    decreases s.len(),
{
    if s.len() > 0 {
        lemma_split_by_nonempty(s.drop_last(), sep);
    }
}

pub open spec fn is_separator(c: char) -> bool {
    c == ';' || c == '&'
}

/// The sub-commands of a command line: the pieces between `;` and `&`.
pub open spec fn segments(s: Seq<char>) -> Seq<Seq<char>> {
    split_by(s, |c: char| is_separator(c))
}

/// The whitespace-separated words of `s`, as `str::split_whitespace`
/// yields them.
pub open spec fn words(s: Seq<char>) -> Seq<Seq<char>> {
    split_by(s, space_pred()).filter(nonempty_pred())
}

pub open spec fn space_pred() -> spec_fn(char) -> bool {
    |c: char| is_space(c)
}

pub open spec fn nonempty_pred() -> spec_fn(Seq<char>) -> bool {
    |w: Seq<char>| w.len() > 0
}

pub open spec fn string_views(v: Seq<String>) -> Seq<Seq<char>> {
    v.map_values(|x: String| x@)
}

pub open spec fn views(v: Seq<Vec<char>>) -> Seq<Seq<char>> {
    v.map_values(|x: Vec<char>| x@)
}

/// Splits a command line into its sub-commands.
pub fn split_segments(cs: &Vec<char>) -> (r: Vec<Vec<char>>)
    ensures
        views(r@) == segments(cs@),
{
    let mut r: Vec<Vec<char>> = Vec::new();
    let mut cur: Vec<char> = Vec::new();
    let mut i: usize = 0;
    while i < cs.len()
        invariant
            i <= cs.len(),
            views(r@).push(cur@) == segments(cs@.take(i as int)),
        decreases cs.len() - i,
    {
        let c = cs[i];
        proof {
            assert(cs@.take(i + 1).drop_last() =~= cs@.take(i as int));
            lemma_split_by_nonempty(cs@.take(i as int), |c: char| is_separator(c));
        }
        if c == ';' || c == '&' {
            r.push(cur);
            cur = Vec::new();
            assert(views(r@).push(cur@) =~= segments(cs@.take(i + 1)));
        } else {
            cur.push(c);
            assert(views(r@).push(cur@) =~= segments(cs@.take(i + 1)));
        }
        i += 1;
    }
    r.push(cur);
    assert(cs@.take(i as int) =~= cs@);
    assert(views(r@) =~= segments(cs@));
    r
}

/// Splits `cs` into its whitespace-separated words.
pub fn split_words(cs: &Vec<char>) -> (r: Vec<Vec<char>>)
    ensures
        views(r@) == words(cs@),
{
    broadcast use group_filter_ensures;

    let mut r: Vec<Vec<char>> = Vec::new();
    let mut cur: Vec<char> = Vec::new();
    let mut i: usize = 0;
    proof {
        lemma_split_by_nonempty(cs@.take(0), space_pred());
        assert(split_by(cs@.take(0), space_pred()).drop_last() =~= Seq::empty());
        reveal(Seq::filter);
    }
    while i < cs.len()
        invariant
            i <= cs.len(),
            split_by(cs@.take(i as int), space_pred()).len() >= 1,
            views(r@) == split_by(cs@.take(i as int), space_pred()).drop_last().filter(nonempty_pred()),
            split_by(cs@.take(i as int), space_pred()).last() == cur@,
        decreases cs.len() - i,
    {
        let c = cs[i];
        let ghost p = split_by(cs@.take(i as int), space_pred());
        proof {
            assert(cs@.take(i + 1).drop_last() =~= cs@.take(i as int));
            assert(cs@.take(i + 1).last() == c);
            lemma_split_by_nonempty(cs@.take(i + 1), space_pred());
        }
        if is_space_char(c) {
            proof {
                assert(p =~= p.drop_last().push(p.last()));
                p.drop_last().lemma_filter_push(p.last(), nonempty_pred());
                assert(split_by(cs@.take(i + 1), space_pred()).drop_last() =~= p);
            }
            if cur.len() > 0 {
                r.push(cur);
                assert(views(r@) =~= split_by(cs@.take(i + 1), space_pred()).drop_last().filter(nonempty_pred()));
            } else {
                assert(views(r@) =~= split_by(cs@.take(i + 1), space_pred()).drop_last().filter(nonempty_pred()));
            }
            cur = Vec::new();
        } else {
            cur.push(c);
            assert(split_by(cs@.take(i + 1), space_pred()).drop_last() =~= p.drop_last());
        }
        i += 1;
    }
    let ghost p = split_by(cs@, space_pred());
    proof {
        assert(cs@.take(i as int) =~= cs@);
        assert(p =~= p.drop_last().push(p.last()));
        p.drop_last().lemma_filter_push(p.last(), nonempty_pred());
    }
    if cur.len() > 0 {
        r.push(cur);
    }
    assert(views(r@) =~= words(cs@));
    r
}


/// Whether the characters `t` spell out exactly `w`.
pub fn is_word(t: &Vec<char>, w: &str) -> (r: bool)
    ensures
        r == (t@ == w@),
{
    let wc = chars_of(w);
    if t.len() != wc.len() {
        return false;
    }
    let mut i: usize = 0;
    while i < t.len()
        invariant
            i <= t.len(),
            t@.len() == wc@.len(),
            wc@ == w@,
            t@.take(i as int) == wc@.take(i as int),
        decreases t.len() - i,
    {
        if t[i] != wc[i] {
            assert(t@[i as int] != w@[i as int]);
            return false;
        }
        assert(t@.take(i + 1) =~= t@.take(i as int).push(t@[i as int]));
        assert(wc@.take(i + 1) =~= wc@.take(i as int).push(wc@[i as int]));
        i += 1;
    }
    assert(t@ =~= t@.take(i as int));
    assert(wc@ =~= wc@.take(i as int));
    true
}

pub open spec fn has_prefix(s: Seq<char>, p: Seq<char>) -> bool {
    p.len() <= s.len() && s.take(p.len() as int) == p
}

/// Whether `t` begins with the characters of `p`.
pub fn starts_with(t: &Vec<char>, p: &str) -> (r: bool)
    ensures
        r == has_prefix(t@, p@),
{
    let pc = chars_of(p);
    if t.len() < pc.len() {
        return false;
    }
    let mut i: usize = 0;
    while i < pc.len()
        invariant
            i <= pc.len(),
            pc@.len() <= t@.len(),
            pc@ == p@,
            t@.take(i as int) == pc@.take(i as int),
        decreases pc.len() - i,
    {
        if t[i] != pc[i] {
            assert(t@.take(pc@.len() as int)[i as int] != pc@[i as int]);
            return false;
        }
        assert(t@.take(i + 1) =~= t@.take(i as int).push(t@[i as int]));
        assert(pc@.take(i + 1) =~= pc@.take(i as int).push(pc@[i as int]));
        i += 1;
    }
    assert(pc@ =~= pc@.take(i as int));
    true
}

/// Whether every character of `s` is whitespace (an empty string is blank).
pub open spec fn is_blank(s: Seq<char>) -> bool {
    forall|i: int| 0 <= i < s.len() ==> is_space(#[trigger] s[i])
}

/// Whether a text holds nothing but whitespace.
pub fn blank(s: &str) -> (r: bool)
    ensures
        r == is_blank(s@),
{
    let cs = chars_of(s);
    let mut i: usize = 0;
    while i < cs.len()
        invariant
            i <= cs.len(),
            cs@ == s@,
            forall|k: int| 0 <= k < i ==> is_space(#[trigger] cs@[k]),
        decreases cs.len() - i,
    {
        if !is_space_char(cs[i]) {
            return false;
        }
        i += 1;
    }
    true
}

pub open spec fn trim_start(s: Seq<char>) -> Seq<char>
    decreases s.len(),
{
    if s.len() > 0 && is_space(s[0]) {
        trim_start(s.drop_first())
    } else {
        s
    }
}

pub open spec fn trim_end(s: Seq<char>) -> Seq<char>
    decreases s.len(),
{
    if s.len() > 0 && is_space(s.last()) {
        trim_end(s.drop_last())
    } else {
        s
    }
}

/// `s` without its leading and trailing whitespace, as `str::trim` gives it.
pub open spec fn trim(s: Seq<char>) -> Seq<char> {
    trim_end(trim_start(s))
}

/// The characters of `cs` without leading and trailing whitespace.
pub fn trim_chars(cs: &Vec<char>) -> (r: Vec<char>)
    ensures
        r@ == trim(cs@),
{
    let n = cs.len();
    let mut a: usize = 0;
    assert(cs@.subrange(0, n as int) =~= cs@);
    while a < n && is_space_char(cs[a])
        invariant
            a <= n,
            n == cs@.len(),
            trim_start(cs@) == trim_start(cs@.subrange(a as int, n as int)),
        decreases n - a,
    {
        assert(cs@.subrange(a as int, n as int).drop_first() =~= cs@.subrange(a + 1, n as int));
        a += 1;
    }
    let mut b: usize = n;
    while b > a && is_space_char(cs[b - 1])
        invariant
            a <= b <= n,
            n == cs@.len(),
            trim_start(cs@) == cs@.subrange(a as int, n as int),
            trim(cs@) == trim_end(cs@.subrange(a as int, b as int)),
        decreases b - a,
    {
        assert(cs@.subrange(a as int, b as int).drop_last() =~= cs@.subrange(a as int, b - 1));
        b -= 1;
    }
    slice_chars(cs, a, b)
}

/// The text of `s` without leading and trailing whitespace.
pub fn trimmed(s: &str) -> (r: String)
    ensures
        r@ == trim(s@),
{
    let cs = chars_of(s);
    let t = trim_chars(&cs);
    string_of(&t)
}


/// The parts of `s` before and after its first `c`, if it has one.
pub open spec fn split_once(s: Seq<char>, c: char) -> Option<(Seq<char>, Seq<char>)>
    decreases s.len(),
{
    if s.len() == 0 {
        None
    } else if s[0] == c {
        Some((Seq::empty(), s.drop_first()))
    } else {
        match split_once(s.drop_first(), c) {
            Some(p) => Some((seq![s[0]] + p.0, p.1)),
            None => None,
        }
    }
}

proof fn lemma_split_once(s: Seq<char>, c: char, k: int)
    requires
        0 <= k <= s.len(),
        forall|j: int| 0 <= j < k ==> s[j] != c,
    ensures
        k < s.len() && s[k] == c ==> split_once(s, c) == Some((s.take(k), s.skip(k + 1))),
        k == s.len() ==> split_once(s, c) is None,
    decreases k,
{
    if k > 0 {
        lemma_split_once(s.drop_first(), c, k - 1);
        assert(seq![s[0]] + s.drop_first().take(k - 1) =~= s.take(k));
        if k < s.len() {
            assert(s.drop_first().skip(k) =~= s.skip(k + 1));
        }
    } else if s.len() > 0 {
        assert(s.drop_first() =~= s.skip(1));
    }
}

/// The characters of `cs` from `a` up to `b`.
pub fn slice_chars(cs: &Vec<char>, a: usize, b: usize) -> (r: Vec<char>)
    requires
        a <= b <= cs@.len(),
    ensures
        r@ == cs@.subrange(a as int, b as int),
{
    let mut r: Vec<char> = Vec::new();
    let mut k: usize = a;
    while k < b
        invariant
            a <= k <= b <= cs@.len(),
            r@ == cs@.subrange(a as int, k as int),
        decreases b - k,
    {
        r.push(cs[k]);
        assert(r@ =~= cs@.subrange(a as int, k + 1));
        k += 1;
    }
    r
}

/// Cuts `cs` at its first `c`.
pub fn split_once_chars(cs: &Vec<char>, c: char) -> (r: Option<(Vec<char>, Vec<char>)>)
    ensures
        match r {
            Some(p) => split_once(cs@, c) == Some((p.0@, p.1@)),
            None => split_once(cs@, c) is None,
        },
{
    let mut k: usize = 0;
    while k < cs.len()
        invariant
            k <= cs@.len(),
            forall|j: int| 0 <= j < k ==> cs@[j] != c,
        decreases cs.len() - k,
    {
        if cs[k] == c {
            proof {
                lemma_split_once(cs@, c, k as int);
            }
            let before = slice_chars(cs, 0, k);
            let after = slice_chars(cs, k + 1, cs.len());
            assert(before@ =~= cs@.take(k as int));
            assert(after@ =~= cs@.skip(k + 1));
            return Some((before, after));
        }
        k += 1;
    }
    proof {
        lemma_split_once(cs@, c, k as int);
    }
    None
}

pub open spec fn is_newline(c: char) -> bool {
    c == '\n'
}

/// The lines of `s`: the pieces between line feeds.
pub open spec fn lines(s: Seq<char>) -> Seq<Seq<char>> {
    split_by(s, |c: char| is_newline(c))
}

/// Splits a text into its lines.
pub fn split_lines(cs: &Vec<char>) -> (r: Vec<Vec<char>>)
    ensures
        views(r@) == lines(cs@),
{
    let mut r: Vec<Vec<char>> = Vec::new();
    let mut cur: Vec<char> = Vec::new();
    let mut i: usize = 0;
    while i < cs.len()
        invariant
            i <= cs.len(),
            views(r@).push(cur@) == lines(cs@.take(i as int)),
        decreases cs.len() - i,
    {
        let c = cs[i];
        proof {
            assert(cs@.take(i + 1).drop_last() =~= cs@.take(i as int));
            lemma_split_by_nonempty(cs@.take(i as int), |c: char| is_newline(c));
        }
        if c == '\n' {
            r.push(cur);
            cur = Vec::new();
            assert(views(r@).push(cur@) =~= lines(cs@.take(i + 1)));
        } else {
            cur.push(c);
            assert(views(r@).push(cur@) =~= lines(cs@.take(i + 1)));
        }
        i += 1;
    }
    r.push(cur);
    assert(cs@.take(i as int) =~= cs@);
    assert(views(r@) =~= lines(cs@));
    r
}


/// No piece of `split_by(s, sep)` holds a character that satisfies `sep`,
/// and every character of a piece is a character of `s`.
pub proof fn lemma_split_by_pieces(s: Seq<char>, sep: spec_fn(char) -> bool)
    ensures
        forall|k: int, j: int|
            0 <= k < split_by(s, sep).len() && 0 <= j < split_by(s, sep)[k].len() ==> !sep(
                #[trigger] split_by(s, sep)[k][j],
            ) && s.contains(split_by(s, sep)[k][j]),
    decreases s.len(),
{
    if s.len() > 0 {
        let pre = s.drop_last();
        lemma_split_by_pieces(pre, sep);
        lemma_split_by_nonempty(pre, sep);
        let p = split_by(pre, sep);
        let q = split_by(s, sep);
        assert forall|k: int, j: int| 0 <= k < q.len() && 0 <= j < q[k].len() implies !sep(
            #[trigger] q[k][j],
        ) && s.contains(q[k][j]) by {
            if k < p.len() && (sep(s.last()) || k < p.len() - 1 || j < p[k].len()) {
                assert(q[k][j] == p[k][j]);
                let m = choose|m: int| 0 <= m < pre.len() && pre[m] == p[k][j];
                assert(s[m] == pre[m]);
            } else {
                assert(q[k][j] == s.last());
                assert(s[s.len() - 1] == s.last());
            }
        }
    }
}

/// Every word of `s` is non-empty, holds no whitespace, and is made of
/// characters of `s`.
pub proof fn lemma_words_chars(s: Seq<char>)
    ensures
        forall|k: int| 0 <= k < words(s).len() ==> (#[trigger] words(s)[k]).len() > 0,
        forall|k: int, j: int|
            0 <= k < words(s).len() && 0 <= j < words(s)[k].len() ==> !is_space(
                #[trigger] words(s)[k][j],
            ) && s.contains(words(s)[k][j]),
{
    broadcast use group_filter_ensures;

    let p = split_by(s, space_pred());
    lemma_split_by_pieces(s, space_pred());
    assert forall|k: int| 0 <= k < words(s).len() implies (#[trigger] words(s)[k]).len() > 0 by {
        assert(nonempty_pred()(words(s)[k]));
    }
    assert forall|k: int, j: int|
        0 <= k < words(s).len() && 0 <= j < words(s)[k].len() implies !is_space(
        #[trigger] words(s)[k][j],
    ) && s.contains(words(s)[k][j]) by {
        let w = words(s)[k];
        assert(p.filter(nonempty_pred()).contains(w));
        p.lemma_filter_contains_rev(nonempty_pred(), w);
        let m = choose|m: int| 0 <= m < p.len() && p[m] == w;
        assert(p[m][j] == w[j]);
        assert(!space_pred()(p[m][j]));
    }
}

/// No sub-command holds a `;` or `&`.
pub proof fn lemma_segments_chars(s: Seq<char>)
    ensures
        forall|k: int, j: int|
            0 <= k < segments(s).len() && 0 <= j < segments(s)[k].len() ==> !is_separator(
                #[trigger] segments(s)[k][j],
            ),
{
    lemma_split_by_pieces(s, |c: char| is_separator(c));
}

} // verus!
