//! The ledger: for each repository, the branches that the agent created
//! and the branches that the operator allowed it to push
//! (authorized).

use crate::text::string_views;
use vstd::prelude::*;
use vstd::seq_lib::group_filter_ensures;

verus! {

/// Repository paths and branch names, as characters.
pub type RepoMap = Map<Seq<char>, Seq<Seq<char>>>;

/// The map that a list of (key, value) pairs describes.
pub open spec fn map_of<K, V>(ev: Seq<(K, V)>) -> Map<K, V> {
    Map::new(
        |k: K| exists|i: int| 0 <= i < ev.len() && (#[trigger] ev[i]).0 == k,
        |k: K| ev[choose|i: int| 0 <= i < ev.len() && (#[trigger] ev[i]).0 == k].1,
    )
}

pub open spec fn unique_keys<K, V>(ev: Seq<(K, V)>) -> bool {
    forall|i: int, j: int|
        0 <= i < ev.len() && 0 <= j < ev.len() && (#[trigger] ev[i]).0 == (#[trigger] ev[j]).0
            ==> i == j
}

proof fn lemma_map_of_index<K, V>(ev: Seq<(K, V)>, i: int)
    requires
        unique_keys(ev),
        0 <= i < ev.len(),
    ensures
        map_of(ev).contains_key(ev[i].0),
        map_of(ev)[ev[i].0] == ev[i].1,
{
    let k = ev[i].0;
    assert(exists|j: int| 0 <= j < ev.len() && (#[trigger] ev[j]).0 == k);
}

proof fn lemma_map_of_push<K, V>(ev: Seq<(K, V)>, k: K, v: V)
    requires
        unique_keys(ev),
        forall|i: int| 0 <= i < ev.len() ==> (#[trigger] ev[i]).0 != k,
    ensures
        unique_keys(ev.push((k, v))),
        map_of(ev.push((k, v))) == map_of(ev).insert(k, v),
{
    let nv = ev.push((k, v));
    assert forall|kk: K| #[trigger] map_of(nv).contains_key(kk) == map_of(ev).insert(
        k,
        v,
    ).contains_key(kk) by {
        if map_of(nv).contains_key(kk) {
            let j = choose|j: int| 0 <= j < nv.len() && (#[trigger] nv[j]).0 == kk;
            if j < ev.len() {
                assert(ev[j].0 == kk);
            }
        }
        if map_of(ev).contains_key(kk) {
            let j = choose|j: int| 0 <= j < ev.len() && (#[trigger] ev[j]).0 == kk;
            assert(nv[j].0 == kk);
        }
        if kk == k {
            assert(nv[ev.len() as int].0 == kk);
        }
    }
    assert forall|kk: K| #[trigger] map_of(nv).contains_key(kk) implies map_of(nv)[kk] == map_of(
        ev,
    ).insert(k, v)[kk] by {
        let j = choose|j: int| 0 <= j < nv.len() && (#[trigger] nv[j]).0 == kk;
        lemma_map_of_index(nv, j);
        if j < ev.len() {
            assert(ev[j] == nv[j]);
            lemma_map_of_index(ev, j);
        }
    }
    assert(map_of(nv) =~= map_of(ev).insert(k, v));
}

proof fn lemma_map_of_update<K, V>(ev: Seq<(K, V)>, i: int, v: V)
    requires
        unique_keys(ev),
        0 <= i < ev.len(),
    ensures
        unique_keys(ev.update(i, (ev[i].0, v))),
        map_of(ev.update(i, (ev[i].0, v))) == map_of(ev).insert(ev[i].0, v),
{
    let k = ev[i].0;
    let nv = ev.update(i, (k, v));
    assert forall|kk: K| #[trigger] map_of(nv).contains_key(kk) == map_of(ev).insert(
        k,
        v,
    ).contains_key(kk) by {
        if map_of(nv).contains_key(kk) {
            let j = choose|j: int| 0 <= j < nv.len() && (#[trigger] nv[j]).0 == kk;
            assert(ev[j].0 == kk);
        }
        if map_of(ev).contains_key(kk) {
            let j = choose|j: int| 0 <= j < ev.len() && (#[trigger] ev[j]).0 == kk;
            assert(nv[j].0 == kk);
        }
        if kk == k {
            assert(nv[i].0 == kk);
        }
    }
    assert forall|kk: K| #[trigger] map_of(nv).contains_key(kk) implies map_of(nv)[kk] == map_of(
        ev,
    ).insert(k, v)[kk] by {
        let j = choose|j: int| 0 <= j < nv.len() && (#[trigger] nv[j]).0 == kk;
        lemma_map_of_index(nv, j);
        if j != i {
            lemma_map_of_index(ev, j);
        }
    }
    assert(map_of(nv) =~= map_of(ev).insert(k, v));
}

proof fn lemma_map_of_remove<K, V>(ev: Seq<(K, V)>, i: int)
    requires
        unique_keys(ev),
        0 <= i < ev.len(),
    ensures
        unique_keys(ev.remove(i)),
        map_of(ev.remove(i)) == map_of(ev).remove(ev[i].0),
{
    let k = ev[i].0;
    let nv = ev.remove(i);
    assert forall|a: int, b: int|
        0 <= a < nv.len() && 0 <= b < nv.len() && (#[trigger] nv[a]).0 == (#[trigger] nv[b]).0
            implies a == b by {
        let a2 = if a < i { a } else { a + 1 };
        let b2 = if b < i { b } else { b + 1 };
        assert(nv[a] == ev[a2] && nv[b] == ev[b2]);
    }
    assert forall|kk: K| #[trigger] map_of(nv).contains_key(kk) == map_of(ev).remove(
        k,
    ).contains_key(kk) by {
        if map_of(nv).contains_key(kk) {
            let j = choose|j: int| 0 <= j < nv.len() && (#[trigger] nv[j]).0 == kk;
            let j2 = if j < i { j } else { j + 1 };
            assert(ev[j2].0 == kk);
        }
        if map_of(ev).contains_key(kk) && kk != k {
            let j = choose|j: int| 0 <= j < ev.len() && (#[trigger] ev[j]).0 == kk;
            if j < i {
                assert(nv[j].0 == kk);
            } else {
                assert(nv[j - 1].0 == kk);
            }
        }
    }
    assert forall|kk: K| #[trigger] map_of(nv).contains_key(kk) implies map_of(nv)[kk] == map_of(
        ev,
    ).remove(k)[kk] by {
        let j = choose|j: int| 0 <= j < nv.len() && (#[trigger] nv[j]).0 == kk;
        lemma_map_of_index(nv, j);
        let j2 = if j < i { j } else { j + 1 };
        lemma_map_of_index(ev, j2);
    }
    assert(map_of(nv) =~= map_of(ev).remove(k));
}


/// The branches recorded for `repo`; none when the repository is absent.
pub open spec fn branches_of(m: RepoMap, repo: Seq<char>) -> Seq<Seq<char>> {
    if m.contains_key(repo) {
        m[repo]
    } else {
        Seq::empty()
    }
}

/// Whether `branch` is recorded for `repo`.
pub open spec fn holds(m: RepoMap, repo: Seq<char>, branch: Seq<char>) -> bool {
    branches_of(m, repo).contains(branch)
}

/// `m` with `branch` appended to the branches of `repo`, unless it is there.
pub open spec fn with_branch(m: RepoMap, repo: Seq<char>, branch: Seq<char>) -> RepoMap {
    if holds(m, repo, branch) {
        m
    } else {
        m.insert(repo, branches_of(m, repo).push(branch))
    }
}

pub open spec fn other_than(branch: Seq<char>) -> spec_fn(Seq<char>) -> bool {
    |x: Seq<char>| x != branch
}

/// `m` with `branch` taken out of the branches of `repo`; a repository left
/// with no branch is dropped.
pub open spec fn without_branch(m: RepoMap, repo: Seq<char>, branch: Seq<char>) -> RepoMap {
    if !m.contains_key(repo) {
        m
    } else {
        let rest = m[repo].filter(other_than(branch));
        if rest.len() == 0 {
            m.remove(repo)
        } else {
            m.insert(repo, rest)
        }
    }
}

/// `m` after appending each of `bs` to the branches of `repo`, in order.
pub open spec fn with_branches(m: RepoMap, repo: Seq<char>, bs: Seq<Seq<char>>) -> RepoMap
    decreases bs.len(),
{
    if bs.len() == 0 {
        m
    } else {
        with_branch(with_branches(m, repo, bs.drop_last()), repo, bs.last())
    }
}

/// `m` after adding the branches of each pair to its repository, in order.
pub open spec fn with_pairs(m: RepoMap, ps: Seq<(Seq<char>, Seq<Seq<char>>)>) -> RepoMap
    decreases ps.len(),
{
    if ps.len() == 0 {
        m
    } else {
        with_branches(with_pairs(m, ps.drop_last()), ps.last().0, ps.last().1)
    }
}

pub open spec fn pair_views(ps: Seq<(String, Vec<String>)>) -> Seq<(Seq<char>, Seq<Seq<char>>)> {
    ps.map_values(|e: (String, Vec<String>)| entry_view(e))
}

/// The pairs `ps` list the map `m`: each repository once, with its
/// branches, none of them empty or with a repeated branch.
pub open spec fn lists(ps: Seq<(Seq<char>, Seq<Seq<char>>)>, m: RepoMap) -> bool {
    &&& unique_keys(ps)
    &&& map_of(ps) == m
    &&& forall|i: int|
        0 <= i < ps.len() ==> (#[trigger] ps[i]).1.len() > 0 && ps[i].1.no_duplicates()
}

/// Every repository has at least one branch, and no branch twice.
pub open spec fn well_formed_map(m: RepoMap) -> bool {
    forall|r: Seq<char>| #[trigger]
        m.contains_key(r) ==> m[r].len() > 0 && m[r].no_duplicates()
}

pub open spec fn entry_view(e: (String, Vec<String>)) -> (Seq<char>, Seq<Seq<char>>) {
    (e.0@, string_views(e.1@))
}

pub open spec fn keys_of(ev: Seq<(Seq<char>, Seq<Seq<char>>)>) -> Seq<Seq<char>> {
    ev.map_values(|e: (Seq<char>, Seq<Seq<char>>)| e.0)
}

/// For each repository, a list of branch names.
pub struct BranchTable {
    entries: Vec<(String, Vec<String>)>,
}

impl View for BranchTable {
    type V = RepoMap;

    closed spec fn view(&self) -> RepoMap {
        map_of(self.entry_views())
    }
}

proof fn lemma_no_dup_filter(s: Seq<Seq<char>>, p: spec_fn(Seq<char>) -> bool)
    requires
        s.no_duplicates(),
    ensures
        s.filter(p).no_duplicates(),
    decreases s.len(),
{
    broadcast use group_filter_ensures;

    reveal(Seq::filter);
    if s.len() > 0 {
        let rest = s.drop_last();
        assert(rest.no_duplicates());
        lemma_no_dup_filter(rest, p);
        if p(s.last()) {
            if rest.filter(p).contains(s.last()) {
                rest.lemma_filter_contains_rev(p, s.last());
            }
        }
    }
}

impl BranchTable {
    pub closed spec fn entry_views(&self) -> Seq<(Seq<char>, Seq<Seq<char>>)> {
        pair_views(self.entries@)
    }

    /// Repositories appear once each; each has at least one branch, and no
    /// branch twice.
    pub closed spec fn wf(&self) -> bool {
        let ev = self.entry_views();
        &&& unique_keys(ev)
        &&& forall|i: int|
            0 <= i < ev.len() ==> (#[trigger] ev[i]).1.len() > 0 && ev[i].1.no_duplicates()
    }

    pub proof fn lemma_wf(&self)
        requires
            self.wf(),
        ensures
            well_formed_map(self@),
    {
        let ev = self.entry_views();
        assert forall|r: Seq<char>| #[trigger] self@.contains_key(r) implies self@[r].len() > 0
            && self@[r].no_duplicates() by {
            let j = choose|j: int| 0 <= j < ev.len() && (#[trigger] ev[j]).0 == r;
            lemma_map_of_index(ev, j);
        }
    }

    /// An empty table.
    pub fn new() -> (r: BranchTable)
        ensures
            r.wf(),
            r@ == RepoMap::empty(),
    {
        let r = BranchTable { entries: Vec::new() };
        assert(r@ =~= RepoMap::empty());
        r
    }

    fn find(&self, repo: &String) -> (r: Option<usize>)
        ensures
            match r {
                Some(i) => i < self.entries@.len() && self.entry_views()[i as int].0 == repo@,
                None => forall|i: int|
                    0 <= i < self.entry_views().len() ==> (#[trigger] self.entry_views()[i]).0
                        != repo@,
            },
    {
        let mut i: usize = 0;
        while i < self.entries.len()
            invariant
                i <= self.entries@.len(),
                forall|j: int| 0 <= j < i ==> (#[trigger] self.entry_views()[j]).0 != repo@,
            decreases self.entries.len() - i,
        {
            if self.entries[i].0 == *repo {
                return Some(i);
            }
            i += 1;
        }
        None
    }

    /// The branches recorded for `repo`, if it has any.
    pub fn get(&self, repo: &str) -> (r: Option<&Vec<String>>)
        requires
            self.wf(),
        ensures
            match r {
                Some(v) => self@.contains_key(repo@) && string_views(v@) == self@[repo@],
                None => !self@.contains_key(repo@),
            },
    {
        let key = repo.to_owned();
        match self.find(&key) {
            Some(i) => {
                proof {
                    lemma_map_of_index(self.entry_views(), i as int);
                }
                Some(&self.entries[i].1)
            },
            None => None,
        }
    }

    /// Whether `branch` is recorded for `repo`.
    pub fn contains(&self, repo: &str, branch: &str) -> (r: bool)
        requires
            self.wf(),
        ensures
            r == holds(self@, repo@, branch@),
    {
        match self.get(repo) {
            Some(v) => {
                let b = branch.to_owned();
                match position(v, &b) {
                    Some(i) => {
                        assert(string_views(v@)[i as int] == branch@);
                        true
                    },
                    None => false,
                }
            },
            None => false,
        }
    }

    /// Whether no repository is recorded.
    pub fn is_empty(&self) -> (r: bool)
        requires
            self.wf(),
        ensures
            r == (self@ == RepoMap::empty()),
    {
        if self.entries.len() == 0 {
            assert(self@ =~= RepoMap::empty());
            true
        } else {
            proof {
                lemma_map_of_index(self.entry_views(), 0);
                assert(self@.contains_key(self.entry_views()[0].0));
            }
            false
        }
    }

    /// The recorded repositories, each once, in the order of their first
    /// entry.
    pub fn repos(&self) -> (r: Vec<String>)
        requires
            self.wf(),
        ensures
            string_views(r@).no_duplicates(),
            string_views(r@).to_set() == self@.dom(),
    {
        let ghost ev = self.entry_views();
        let mut r: Vec<String> = Vec::new();
        let mut i: usize = 0;
        while i < self.entries.len()
            invariant
                i <= self.entries@.len(),
                ev == self.entry_views(),
                unique_keys(ev),
                string_views(r@) == keys_of(ev.take(i as int)),
            decreases self.entries.len() - i,
        {
            let ghost prev = r@;
            let k = self.entries[i].0.clone();
            r.push(k);
            assert(string_views(r@) =~= string_views(prev).push(k@));
            assert(string_views(r@) =~= keys_of(ev.take(i + 1)));
            i += 1;
        }
        let ghost keys = string_views(r@);
        assert(ev.take(i as int) =~= ev);
        assert forall|a: int, b: int| 0 <= a < keys.len() && 0 <= b < keys.len() && a != b implies keys[a] != keys[b] by {
            assert(keys[a] == ev[a].0 && keys[b] == ev[b].0);
        }
        assert forall|k: Seq<char>| keys.to_set().contains(k) == self@.dom().contains(k) by {
            if keys.to_set().contains(k) {
                let j = choose|j: int| 0 <= j < keys.len() && keys[j] == k;
                assert(ev[j].0 == k);
            }
            if self@.dom().contains(k) {
                let j = choose|j: int| 0 <= j < ev.len() && (#[trigger] ev[j]).0 == k;
                assert(keys[j] == k);
            }
        }
        assert(keys.to_set() =~= self@.dom());
        r
    }

    /// Appends `branch` to the branches of `repo`, unless it is there.
    pub fn add(&mut self, repo: &str, branch: &str)
        requires
            old(self).wf(),
        ensures
            final(self).wf(),
            final(self)@ == with_branch(old(self)@, repo@, branch@),
    {
        let key = repo.to_owned();
        let b = branch.to_owned();
        let ghost ev = self.entry_views();
        match self.find(&key) {
            Some(i) => {
                proof {
                    lemma_map_of_index(ev, i as int);
                }
                let found = position(&self.entries[i].1, &b);
                if let Some(j) = found {
                    assert(string_views(self.entries@[i as int].1@)[j as int] == branch@);
                } else {
                    let ghost old_list = self.entries@[i as int].1@;
                    self.entries[i].1.push(b);
                    proof {
                        let nl = self.entries@[i as int].1@;
                        assert(string_views(nl) =~= string_views(old_list).push(branch@));
                        assert(self.entry_views() =~= ev.update(i as int, (repo@, string_views(nl))));
                        lemma_map_of_update(ev, i as int, string_views(nl));
                        assert forall|x: int, y: int| 0 <= x < string_views(nl).len() && 0 <= y < string_views(nl).len() && x != y
                            implies string_views(nl)[x] != string_views(nl)[y] by {
                            if y == string_views(nl).len() - 1 {
                                assert(string_views(old_list)[x] == string_views(nl)[x]);
                            } else if x == string_views(nl).len() - 1 {
                                assert(string_views(old_list)[y] == string_views(nl)[y]);
                            }
                        }
                        assert forall|x: int| 0 <= x < self.entry_views().len() implies (#[trigger] self.entry_views()[x]).1.len() > 0 && self.entry_views()[x].1.no_duplicates() by {
                            if x != i {
                                assert(self.entry_views()[x] == ev[x]);
                            }
                        }
                    }
                }
            },
            None => {
                let mut list: Vec<String> = Vec::new();
                list.push(b);
                self.entries.push((key, list));
                proof {
                    assert(string_views(list@) =~= seq![branch@]);
                    assert(self.entry_views() =~= ev.push((repo@, seq![branch@])));
                    lemma_map_of_push(ev, repo@, seq![branch@]);
                    assert(seq![branch@] =~= Seq::<Seq<char>>::empty().push(branch@));
                    assert forall|x: int| 0 <= x < self.entry_views().len() implies (#[trigger] self.entry_views()[x]).1.len() > 0 && self.entry_views()[x].1.no_duplicates() by {
                        if x < ev.len() {
                            assert(self.entry_views()[x] == ev[x]);
                        }
                    }
                }
            },
        }
    }

    /// Takes `branch` out of the branches of `repo`; drops `repo` when no
    /// branch is left.
    pub fn remove_branch(&mut self, repo: &str, branch: &str)
        requires
            old(self).wf(),
        ensures
            final(self).wf(),
            final(self)@ == without_branch(old(self)@, repo@, branch@),
    {
        broadcast use group_filter_ensures;

        let key = repo.to_owned();
        let b = branch.to_owned();
        let ghost ev = self.entry_views();
        match self.find(&key) {
            None => {
                proof {
                    if self@.contains_key(repo@) {
                        let j = choose|j: int| 0 <= j < ev.len() && (#[trigger] ev[j]).0 == repo@;
                    }
                }
            },
            Some(i) => {
                proof {
                    lemma_map_of_index(ev, i as int);
                    reveal(Seq::filter);
                }
                let ghost old_list = string_views(self.entries@[i as int].1@);
                let mut rest: Vec<String> = Vec::new();
                let mut k: usize = 0;
                while k < self.entries[i].1.len()
                    invariant
                        i < self.entries@.len(),
                        b@ == branch@,
                        k <= self.entries@[i as int].1@.len(),
                        old_list == string_views(self.entries@[i as int].1@),
                        string_views(rest@) == old_list.take(k as int).filter(other_than(branch@)),
                    decreases self.entries@[i as int].1@.len() - k,
                {
                    let x = &self.entries[i].1[k];
                    proof {
                        assert(old_list.take(k + 1) =~= old_list.take(k as int).push(x@));
                        old_list.take(k as int).lemma_filter_push(x@, other_than(branch@));
                    }
                    let same = self.entries[i].1[k] == b;
                    if !same {
                        let ghost prev = rest@;
                        let c = x.clone();
                        rest.push(c);
                        assert(other_than(branch@)(x@));
                        assert(string_views(rest@) =~= string_views(prev).push(c@));
                    } else {
                        assert(!other_than(branch@)(x@));
                    }
                    k += 1;
                }
                proof {
                    assert(old_list.take(k as int) =~= old_list);
                    lemma_no_dup_filter(old_list, other_than(branch@));
                }
                if rest.len() == 0 {
                    self.entries.remove(i);
                    proof {
                        assert(self.entry_views() =~= ev.remove(i as int));
                        lemma_map_of_remove(ev, i as int);
                        assert forall|x: int| 0 <= x < self.entry_views().len() implies (#[trigger] self.entry_views()[x]).1.len() > 0 && self.entry_views()[x].1.no_duplicates() by {
                            let x2 = if x < i { x } else { x + 1 };
                            assert(self.entry_views()[x] == ev[x2]);
                        }
                    }
                } else {
                    let ghost nl = string_views(rest@);
                    self.entries[i].1 = rest;
                    proof {
                        assert(self.entry_views() =~= ev.update(i as int, (repo@, nl)));
                        lemma_map_of_update(ev, i as int, nl);
                        assert forall|x: int| 0 <= x < self.entry_views().len() implies (#[trigger] self.entry_views()[x]).1.len() > 0 && self.entry_views()[x].1.no_duplicates() by {
                            if x != i {
                                assert(self.entry_views()[x] == ev[x]);
                            }
                        }
                    }
                }
            },
        }
    }

    /// Drops `repo` and all of its branches.
    pub fn remove_repo(&mut self, repo: &str)
        requires
            old(self).wf(),
        ensures
            final(self).wf(),
            final(self)@ == old(self)@.remove(repo@),
    {
        let key = repo.to_owned();
        let ghost ev = self.entry_views();
        match self.find(&key) {
            None => {
                proof {
                    if self@.contains_key(repo@) {
                        let j = choose|j: int| 0 <= j < ev.len() && (#[trigger] ev[j]).0 == repo@;
                    }
                    assert(self@ =~= self@.remove(repo@));
                }
            },
            Some(i) => {
                self.entries.remove(i);
                proof {
                    assert(self.entry_views() =~= ev.remove(i as int));
                    lemma_map_of_remove(ev, i as int);
                    assert forall|x: int| 0 <= x < self.entry_views().len() implies (#[trigger] self.entry_views()[x]).1.len() > 0 && self.entry_views()[x].1.no_duplicates() by {
                        let x2 = if x < i { x } else { x + 1 };
                        assert(self.entry_views()[x] == ev[x2]);
                    }
                }
            },
        }
    }
}

impl BranchTable {
    /// The table as (repository, branches) pairs, in table order.
    pub fn to_pairs(&self) -> (r: Vec<(String, Vec<String>)>)
        requires
            self.wf(),
        ensures
            lists(pair_views(r@), self@),
    {
        let mut r: Vec<(String, Vec<String>)> = Vec::new();
        let mut i: usize = 0;
        while i < self.entries.len()
            invariant
                i <= self.entries@.len(),
                pair_views(r@) == self.entry_views().take(i as int),
            decreases self.entries.len() - i,
        {
            let ghost prev = r@;
            let repo = self.entries[i].0.clone();
            let branches = copy_strings(&self.entries[i].1);
            let ghost e = (repo, branches);
            assert(entry_view(e) == self.entry_views()[i as int]);
            r.push((repo, branches));
            assert(pair_views(r@) =~= pair_views(prev).push(entry_view(e)));
            assert(pair_views(r@) =~= self.entry_views().take(i + 1));
            i += 1;
        }
        assert(self.entry_views().take(i as int) =~= self.entry_views());
        r
    }

    /// Appends each of `branches` to the branches of `repo`, in order,
    /// skipping those already there.
    pub fn add_all(&mut self, repo: &str, branches: &Vec<String>)
        requires
            old(self).wf(),
        ensures
            final(self).wf(),
            final(self)@ == with_branches(old(self)@, repo@, string_views(branches@)),
    {
        let mut i: usize = 0;
        while i < branches.len()
            invariant
                i <= branches@.len(),
                self.wf(),
                self@ == with_branches(old(self)@, repo@, string_views(branches@).take(i as int)),
            decreases branches.len() - i,
        {
            self.add(repo, branches[i].as_str());
            assert(string_views(branches@).take(i + 1).drop_last() =~= string_views(branches@).take(i as int));
            i += 1;
        }
        assert(string_views(branches@).take(i as int) =~= string_views(branches@));
    }

    /// The table that the pairs describe, read in order: repeated branches
    /// and repositories are merged, repositories without a branch left out.
    pub fn from_pairs(pairs: &Vec<(String, Vec<String>)>) -> (r: BranchTable)
        ensures
            r.wf(),
            r@ == with_pairs(RepoMap::empty(), pair_views(pairs@)),
    {
        let mut t = BranchTable::new();
        let mut i: usize = 0;
        while i < pairs.len()
            invariant
                i <= pairs@.len(),
                t.wf(),
                t@ == with_pairs(RepoMap::empty(), pair_views(pairs@).take(i as int)),
            decreases pairs.len() - i,
        {
            t.add_all(pairs[i].0.as_str(), &pairs[i].1);
            assert(pair_views(pairs@).take(i + 1).drop_last() =~= pair_views(pairs@).take(i as int));
            i += 1;
        }
        assert(pair_views(pairs@).take(i as int) =~= pair_views(pairs@));
        t
    }
}

fn copy_strings(v: &Vec<String>) -> (r: Vec<String>)
    ensures
        r@ == v@,
{
    let mut r: Vec<String> = Vec::new();
    let mut i: usize = 0;
    while i < v.len()
        invariant
            i <= v@.len(),
            r@ == v@.take(i as int),
        decreases v.len() - i,
    {
        r.push(v[i].clone());
        assert(r@ =~= v@.take(i + 1));
        i += 1;
    }
    assert(v@.take(i as int) =~= v@);
    r
}

/// The position of `b` in `v`, if it occurs.
fn position(v: &Vec<String>, b: &String) -> (r: Option<usize>)
    ensures
        match r {
            Some(i) => i < v@.len() && v@[i as int]@ == b@,
            None => !string_views(v@).contains(b@),
        },
{
    let mut i: usize = 0;
    while i < v.len()
        invariant
            i <= v@.len(),
            forall|j: int| 0 <= j < i ==> (#[trigger] v@[j])@ != b@,
        decreases v.len() - i,
    {
        if v[i] == *b {
            return Some(i);
        }
        i += 1;
    }
    None
}


/// Relies on `std::path::Path::exists`: whether the file system holds
/// something at `path` when it is asked. Nothing is stated of the answer,
/// which depends on the disk.
#[verifier::external_body]
fn path_exists(path: &str) -> (r: bool) {
    std::path::Path::new(path).exists()
}

/// The authorization ledger: branches the agent created (`tracked_branches`) and
/// branches the operator allowed it to push (`authorized`), each keyed by
/// repository path. The two tables are independent.
pub struct State {
    pub tracked_branches: BranchTable,
    pub authorized: BranchTable,
}

impl State {
    pub open spec fn wf(&self) -> bool {
        self.tracked_branches.wf() && self.authorized.wf()
    }

    /// The repositories recorded in either table.
    pub open spec fn repo_set(&self) -> Set<Seq<char>> {
        self.tracked_branches@.dom().union(self.authorized@.dom())
    }

    /// An empty ledger.
    pub fn new() -> (r: State)
        ensures
            r.wf(),
            r.tracked_branches@ == RepoMap::empty(),
            r.authorized@ == RepoMap::empty(),
    {
        State { tracked_branches: BranchTable::new(), authorized: BranchTable::new() }
    }

    /// Whether the agent created `branch` in `repo`.
    pub fn is_tracked(&self, repo: &str, branch: &str) -> (r: bool)
        requires
            self.wf(),
        ensures
            r == holds(self.tracked_branches@, repo@, branch@),
    {
        self.tracked_branches.contains(repo, branch)
    }

    /// Whether the operator allowed pushes of `branch` in `repo`.
    pub fn is_authorized(&self, repo: &str, branch: &str) -> (r: bool)
        requires
            self.wf(),
        ensures
            r == holds(self.authorized@, repo@, branch@),
    {
        self.authorized.contains(repo, branch)
    }

    /// Records that the agent created `branch` in `repo`.
    pub fn track(&mut self, repo: &str, branch: &str)
        requires
            old(self).wf(),
        ensures
            final(self).wf(),
            final(self).tracked_branches@ == with_branch(old(self).tracked_branches@, repo@, branch@),
            final(self).authorized@ == old(self).authorized@,
            holds(final(self).tracked_branches@, repo@, branch@),
    {
        proof {
            lemma_record_idempotent(self.tracked_branches@, repo@, branch@);
        }
        self.tracked_branches.add(repo, branch);
    }

    /// Records the operator's permission to push `branch` in `repo`.
    pub fn authorize(&mut self, repo: &str, branch: &str)
        requires
            old(self).wf(),
        ensures
            final(self).wf(),
            final(self).authorized@ == with_branch(old(self).authorized@, repo@, branch@),
            final(self).tracked_branches@ == old(self).tracked_branches@,
            holds(final(self).authorized@, repo@, branch@),
    {
        proof {
            lemma_record_idempotent(self.authorized@, repo@, branch@);
        }
        self.authorized.add(repo, branch);
    }

    /// Withdraws the permission to push `branch` in `repo`; what the agent
    /// created stays recorded.
    pub fn revoke(&mut self, repo: &str, branch: &str)
        requires
            old(self).wf(),
        ensures
            final(self).wf(),
            final(self).authorized@ == without_branch(old(self).authorized@, repo@, branch@),
            final(self).tracked_branches@ == old(self).tracked_branches@,
            !holds(final(self).authorized@, repo@, branch@),
    {
        proof {
            lemma_revoke_removes(self.authorized@, repo@, branch@, branch@);
        }
        self.authorized.remove_branch(repo, branch);
    }

    /// Forgets everything recorded for `repo`.
    pub fn clean_repo(&mut self, repo: &str)
        requires
            old(self).wf(),
        ensures
            final(self).wf(),
            final(self).tracked_branches@ == old(self).tracked_branches@.remove(repo@),
            final(self).authorized@ == old(self).authorized@.remove(repo@),
    {
        self.tracked_branches.remove_repo(repo);
        self.authorized.remove_repo(repo);
    }

    /// Records that the agent created each of `branches` in `repo`, in
    /// order.
    pub fn track_all(&mut self, repo: &str, branches: &Vec<String>)
        requires
            old(self).wf(),
        ensures
            final(self).wf(),
            final(self).tracked_branches@ == with_branches(
                old(self).tracked_branches@,
                repo@,
                string_views(branches@),
            ),
            final(self).authorized@ == old(self).authorized@,
    {
        self.tracked_branches.add_all(repo, branches);
    }

    /// The ledger that two lists of (repository, branches) pairs describe,
    /// as a stored document holds them.
    pub fn from_pairs(
        tracked_pairs: &Vec<(String, Vec<String>)>,
        authorized_pairs: &Vec<(String, Vec<String>)>,
    ) -> (r: State)
        ensures
            r.wf(),
            r.tracked_branches@ == with_pairs(RepoMap::empty(), pair_views(tracked_pairs@)),
            r.authorized@ == with_pairs(RepoMap::empty(), pair_views(authorized_pairs@)),
    {
        State {
            tracked_branches: BranchTable::from_pairs(tracked_pairs),
            authorized: BranchTable::from_pairs(authorized_pairs),
        }
    }

    /// Every repository recorded in either table, once each: those with
    /// created branches first, in table order, then the others.
    pub fn repos(&self) -> (r: Vec<String>)
        requires
            self.wf(),
        ensures
            string_views(r@).no_duplicates(),
            string_views(r@).to_set() == self.repo_set(),
    {
        broadcast use vstd::seq_lib::group_seq_properties;

        let mut r = self.tracked_branches.repos();
        let more = self.authorized.repos();
        let mut i: usize = 0;
        while i < more.len()
            invariant
                i <= more@.len(),
                self.wf(),
                string_views(r@).no_duplicates(),
                string_views(more@).no_duplicates(),
                string_views(more@).to_set() == self.authorized@.dom(),
                string_views(r@).to_set() == self.tracked_branches@.dom().union(
                    string_views(more@).take(i as int).to_set(),
                ),
            decreases more.len() - i,
        {
            let k = &more[i];
            let ghost prev = r@;
            proof {
                assert(string_views(more@).take(i + 1) =~= string_views(more@).take(i as int).push(k@));
                string_views(more@).take(i as int).lemma_push_to_set_commute(k@);
            }
            if !self.tracked_branches.get(k.as_str()).is_some() {
                let c = k.clone();
                r.push(c);
                proof {
                    assert(string_views(r@) =~= string_views(prev).push(k@));
                    string_views(prev).lemma_push_to_set_commute(k@);
                    assert(!string_views(prev).contains(k@)) by {
                        if string_views(prev).contains(k@) {
                            let j = choose|j: int| 0 <= j < string_views(prev).len() && string_views(prev)[j] == k@;
                            assert(string_views(prev).to_set().contains(k@));
                            if !self.tracked_branches@.dom().contains(k@) {
                                assert(string_views(more@).take(i as int).to_set().contains(k@));
                                let m = choose|m: int| 0 <= m < i && string_views(more@).take(i as int)[m] == k@;
                                assert(string_views(more@)[m] == string_views(more@)[i as int]);
                            }
                        }
                    }
                    assert(string_views(r@).to_set() =~= self.tracked_branches@.dom().union(string_views(more@).take(i + 1).to_set()));
                }
            } else {
                assert(string_views(r@).to_set() =~= self.tracked_branches@.dom().union(string_views(more@).take(i + 1).to_set()));
            }
            i += 1;
        }
        assert(string_views(more@).take(i as int) =~= string_views(more@));
        r
    }

    /// Forgets every repository of `missing` that is recorded, and returns
    /// those, in the order of `missing`, once each.
    pub fn clean_missing(&mut self, missing: &Vec<String>) -> (removed: Vec<String>)
        requires
            old(self).wf(),
        ensures
            final(self).wf(),
            string_views(removed@).no_duplicates(),
            string_views(removed@).to_set() == string_views(missing@).to_set().intersect(
                old(self).repo_set(),
            ),
            final(self).tracked_branches@ == old(self).tracked_branches@.remove_keys(string_views(missing@).to_set()),
            final(self).authorized@ == old(self).authorized@.remove_keys(
                string_views(missing@).to_set(),
            ),
    {
        broadcast use vstd::seq_lib::group_seq_properties;

        let ghost t0 = self.tracked_branches@;
        let ghost a0 = self.authorized@;
        let mut removed: Vec<String> = Vec::new();
        let mut i: usize = 0;
        while i < missing.len()
            invariant
                i <= missing@.len(),
                self.wf(),
                string_views(removed@).no_duplicates(),
                string_views(removed@).to_set() == string_views(missing@).take(i as int).to_set().intersect(t0.dom().union(a0.dom())),
                self.tracked_branches@ == t0.remove_keys(string_views(missing@).take(i as int).to_set()),
                self.authorized@ == a0.remove_keys(string_views(missing@).take(i as int).to_set()),
            decreases missing.len() - i,
        {
            let k = &missing[i];
            let ghost done = string_views(missing@).take(i as int).to_set();
            proof {
                assert(string_views(missing@).take(i + 1) =~= string_views(missing@).take(i as int).push(k@));
                string_views(missing@).take(i as int).lemma_push_to_set_commute(k@);
                assert(string_views(missing@).take(i + 1).to_set() =~= done.insert(k@));
            }
            let present = self.tracked_branches.get(k.as_str()).is_some() || self.authorized.get(k.as_str()).is_some();
            self.clean_repo(k.as_str());
            if present {
                let ghost prev = removed@;
                let c = k.clone();
                removed.push(c);
                proof {
                    assert(string_views(removed@) =~= string_views(prev).push(k@));
                    string_views(prev).lemma_push_to_set_commute(k@);
                    assert(!done.contains(k@));
                    assert(!string_views(prev).contains(k@)) by {
                        if string_views(prev).contains(k@) {
                            let j = choose|j: int| 0 <= j < string_views(prev).len() && string_views(prev)[j] == k@;
                            assert(string_views(prev).to_set().contains(k@));
                        }
                    }
                }
            }
            proof {
                assert(string_views(removed@).to_set() =~= done.insert(k@).intersect(t0.dom().union(a0.dom())));
                assert(self.tracked_branches@ =~= t0.remove_keys(done.insert(k@)));
                assert(self.authorized@ =~= a0.remove_keys(done.insert(k@)));
            }
            i += 1;
        }
        assert(string_views(missing@).take(i as int) =~= string_views(missing@));
        removed
    }

    /// Forgets every recorded repository whose path is not on the file
    /// system, and returns those, once each. The file system is asked once
    /// for each recorded repository; what is removed is exactly the set of
    /// those for which it answered "absent".
    pub fn clean_stale(&mut self) -> (removed: Vec<String>)
        requires
            old(self).wf(),
        ensures
            final(self).wf(),
            string_views(removed@).no_duplicates(),
            string_views(removed@).to_set().subset_of(old(self).repo_set()),
            exists|all: Seq<Seq<char>>, present: Seq<bool>|
                #![trigger absent(all, present)]
                all.to_set() == old(self).repo_set() && present.len() == all.len()
                    && string_views(removed@).to_set() == absent(all, present).to_set(),
            final(self).tracked_branches@ == old(self).tracked_branches@.remove_keys(
                string_views(removed@).to_set(),
            ),
            final(self).authorized@ == old(self).authorized@.remove_keys(
                string_views(removed@).to_set(),
            ),
    {
        let all = self.repos();
        let mut present: Vec<bool> = Vec::new();
        let mut i: usize = 0;
        while i < all.len()
            invariant
                i <= all@.len(),
                present@.len() == i,
            decreases all.len() - i,
        {
            present.push(path_exists(all[i].as_str()));
            i += 1;
        }
        let missing = missing_paths(&all, &present);
        let ghost av = string_views(all@);
        let ghost old_set = self.repo_set();
        proof {
            lemma_absent_members(av, present@);
            assert forall|k: Seq<char>| string_views(missing@).to_set().contains(k) implies old_set.contains(k) by {
                assert(string_views(missing@).contains(k));
                let j = choose|j: int| 0 <= j < av.len() && av[j] == k && !present@[j];
                assert(av.contains(k));
                assert(av.to_set().contains(k));
            }
        }
        let removed = self.clean_missing(&missing);
        proof {
            assert(string_views(removed@).to_set() =~= string_views(missing@).to_set());
            assert(string_views(removed@).to_set() == absent(av, present@).to_set());
        }
        removed
    }
}

/// The entries of `repos` whose answer at the same position of `present` is
/// `false`, in order.
pub open spec fn absent(repos: Seq<Seq<char>>, present: Seq<bool>) -> Seq<Seq<char>>
    decreases repos.len(),
{
    if repos.len() == 0 {
        Seq::empty()
    } else {
        let rest = absent(repos.drop_last(), present);
        if present[repos.len() - 1] {
            rest
        } else {
            rest.push(repos.last())
        }
    }
}

proof fn lemma_absent_members(repos: Seq<Seq<char>>, present: Seq<bool>)
    requires
        present.len() >= repos.len(),
    ensures
        forall|k: Seq<char>|
            absent(repos, present).contains(k) <==> exists|i: int|
                0 <= i < repos.len() && repos[i] == k && !present[i],
    decreases repos.len(),
{
    if repos.len() > 0 {
        let pre = repos.drop_last();
        lemma_absent_members(pre, present);
        let n = repos.len() - 1;
        let rest = absent(pre, present);
        assert forall|k: Seq<char>|
            absent(repos, present).contains(k) <==> exists|i: int|
                0 <= i < repos.len() && repos[i] == k && !present[i] by {
            if absent(repos, present).contains(k) {
                let j = choose|j: int| 0 <= j < absent(repos, present).len() && absent(repos, present)[j] == k;
                if j < rest.len() {
                    assert(rest[j] == k);
                    assert(rest.contains(k));
                    let i = choose|i: int| 0 <= i < pre.len() && pre[i] == k && !present[i];
                    assert(repos[i] == k);
                } else {
                    assert(repos[n] == k && !present[n]);
                }
            }
            if exists|i: int| 0 <= i < repos.len() && repos[i] == k && !present[i] {
                let i = choose|i: int| 0 <= i < repos.len() && repos[i] == k && !present[i];
                if i < n {
                    assert(pre[i] == k);
                    assert(rest.contains(k));
                    let j = choose|j: int| 0 <= j < rest.len() && rest[j] == k;
                    assert(absent(repos, present)[j] == k);
                } else {
                    assert(absent(repos, present)[rest.len() as int] == k);
                }
            }
        }
    }
}

/// The paths among `repos` that `present` answers as absent, in order.
pub fn missing_paths(repos: &Vec<String>, present: &Vec<bool>) -> (r: Vec<String>)
    requires
        repos@.len() == present@.len(),
    ensures
        string_views(r@) == absent(string_views(repos@), present@),
{
    let mut r: Vec<String> = Vec::new();
    let mut i: usize = 0;
    while i < repos.len()
        invariant
            i <= repos@.len(),
            repos@.len() == present@.len(),
            string_views(r@) == absent(string_views(repos@).take(i as int), present@),
        decreases repos.len() - i,
    {
        proof {
            let t = string_views(repos@).take(i + 1);
            assert(t.drop_last() =~= string_views(repos@).take(i as int));
            assert(t.last() == repos@[i as int]@);
        }
        if !present[i] {
            let ghost prev = r@;
            let c = repos[i].clone();
            r.push(c);
            assert(string_views(r@) =~= string_views(prev).push(c@));
        }
        i += 1;
    }
    assert(string_views(repos@).take(i as int) =~= string_views(repos@));
    r
}

/// Stale cleaning removes exactly the recorded repositories whose path does
/// not exist: when each answer is what `exists_at` says of its path, a
/// repository is in `absent` exactly when it is listed and `exists_at` is
/// false for it.
pub proof fn lemma_stale_exact(
    all: Seq<Seq<char>>,
    present: Seq<bool>,
    exists_at: spec_fn(Seq<char>) -> bool,
)
    requires
        present.len() == all.len(),
        forall|i: int| 0 <= i < all.len() ==> present[i] == exists_at(#[trigger] all[i]),
    ensures
        forall|k: Seq<char>|
            absent(all, present).to_set().contains(k) <==> all.to_set().contains(k)
                && !exists_at(k),
{
    lemma_absent_members(all, present);
    assert forall|k: Seq<char>|
        absent(all, present).to_set().contains(k) <==> all.to_set().contains(k) && !exists_at(
            k,
        ) by {
        if all.contains(k) && !exists_at(k) {
            let i = choose|i: int| 0 <= i < all.len() && all[i] == k;
            assert(!present[i]);
        }
        if absent(all, present).contains(k) {
            let i = choose|i: int| 0 <= i < all.len() && all[i] == k && !present[i];
            assert(all.contains(k));
        }
    }
}

impl Default for State {
    fn default() -> (r: State)
        ensures
            r.wf(),
            r.tracked_branches@ == RepoMap::empty(),
            r.authorized@ == RepoMap::empty(),
    {
        State::new()
    }
}

/// After a branch is recorded (by `track` or `authorize`) it is held, and
/// recording it a second time changes nothing, so the length of its
/// repository's list stays the same.
pub proof fn lemma_record_idempotent(m: RepoMap, repo: Seq<char>, branch: Seq<char>)
    ensures
        holds(with_branch(m, repo, branch), repo, branch),
        with_branch(with_branch(m, repo, branch), repo, branch) == with_branch(m, repo, branch),
        branches_of(with_branch(with_branch(m, repo, branch), repo, branch), repo).len()
            == branches_of(with_branch(m, repo, branch), repo).len(),
{
    let w = with_branch(m, repo, branch);
    if !holds(m, repo, branch) {
        assert(branches_of(w, repo) == branches_of(m, repo).push(branch));
        assert(branches_of(w, repo)[branches_of(m, repo).len() as int] == branch);
    }
}

/// After `revoke`, the branch is no longer authorized in that repository,
/// and every other branch keeps its standing.
pub proof fn lemma_revoke_removes(m: RepoMap, repo: Seq<char>, branch: Seq<char>, other: Seq<char>)
    ensures
        !holds(without_branch(m, repo, branch), repo, branch),
        other != branch ==> (holds(without_branch(m, repo, branch), repo, other) == holds(
            m,
            repo,
            other,
        )),
{
    broadcast use group_filter_ensures;

    if m.contains_key(repo) {
        let rest = m[repo].filter(other_than(branch));
        if rest.contains(branch) {
            let j = choose|j: int| 0 <= j < rest.len() && rest[j] == branch;
            assert(other_than(branch)(rest[j]));
        }
        if other != branch {
            if m[repo].contains(other) {
                let j = choose|j: int| 0 <= j < m[repo].len() && m[repo][j] == other;
                m[repo].lemma_filter_contains(other_than(branch), j);
            }
            if rest.contains(other) {
                m[repo].lemma_filter_contains_rev(other_than(branch), other);
            }
        }
    }
}

/// `clean_repo` forgets the repository and leaves every other one as it was.
pub proof fn lemma_clean_repo_scope(m: RepoMap, repo: Seq<char>, other: Seq<char>)
    ensures
        !m.remove(repo).contains_key(repo),
        other != repo ==> m.remove(repo).contains_key(other) == m.contains_key(other),
        other != repo && m.contains_key(other) ==> m.remove(repo)[other] == m[other],
{
}

proof fn lemma_with_branches_fresh(m: RepoMap, repo: Seq<char>, bs: Seq<Seq<char>>)
    requires
        !m.contains_key(repo),
        bs.no_duplicates(),
    ensures
        with_branches(m, repo, bs) == (if bs.len() == 0 {
            m
        } else {
            m.insert(repo, bs)
        }),
    decreases bs.len(),
{
    if bs.len() > 0 {
        let pre = bs.drop_last();
        assert(pre.no_duplicates());
        lemma_with_branches_fresh(m, repo, pre);
        assert(!pre.contains(bs.last())) by {
            if pre.contains(bs.last()) {
                let j = choose|j: int| 0 <= j < pre.len() && pre[j] == bs.last();
                assert(bs[j] == bs[bs.len() - 1]);
            }
        }
        assert(pre.push(bs.last()) =~= bs);
        if pre.len() == 0 {
            assert(Seq::<Seq<char>>::empty().push(bs.last()) =~= bs);
        } else {
            assert(m.insert(repo, pre).insert(repo, bs) =~= m.insert(repo, bs));
        }
    }
}

/// Reading back the pairs that list a well-formed table gives that table
/// again: what `to_pairs` writes, `from_pairs` reads as it was.
pub proof fn lemma_pairs_round_trip(ps: Seq<(Seq<char>, Seq<Seq<char>>)>, m: RepoMap)
    requires
        lists(ps, m),
    ensures
        with_pairs(RepoMap::empty(), ps) == m,
    decreases ps.len(),
{
    if ps.len() == 0 {
        assert(map_of(ps) =~= RepoMap::empty());
    } else {
        let pre = ps.drop_last();
        let k = ps.last().0;
        let bs = ps.last().1;
        assert(unique_keys(pre)) by {
            assert forall|i: int, j: int|
                0 <= i < pre.len() && 0 <= j < pre.len() && (#[trigger] pre[i]).0 == (
                #[trigger] pre[j]).0 implies i == j by {
                assert(ps[i] == pre[i] && ps[j] == pre[j]);
            }
        }
        assert forall|i: int| 0 <= i < pre.len() implies (#[trigger] pre[i]).1.len() > 0
            && pre[i].1.no_duplicates() by {
            assert(ps[i] == pre[i]);
        }
        lemma_pairs_round_trip(pre, map_of(pre));
        assert forall|i: int| 0 <= i < pre.len() implies (#[trigger] pre[i]).0 != k by {
            assert(ps[i] == pre[i]);
            assert(ps[ps.len() - 1].0 == k);
        }
        assert(!map_of(pre).contains_key(k)) by {
            if map_of(pre).contains_key(k) {
                let j = choose|j: int| 0 <= j < pre.len() && (#[trigger] pre[j]).0 == k;
            }
        }
        assert(ps[ps.len() - 1].1.len() > 0 && ps[ps.len() - 1].1.no_duplicates());
        lemma_with_branches_fresh(map_of(pre), k, bs);
        lemma_map_of_push(pre, k, bs);
        assert(pre.push((k, bs)) =~= ps);
    }
}

/// The ledger read back from the pairs that its two tables list equals the
/// ledger that was listed.
pub proof fn lemma_state_round_trip(
    s: State,
    tracked_pairs: Seq<(Seq<char>, Seq<Seq<char>>)>,
    authorized_pairs: Seq<(Seq<char>, Seq<Seq<char>>)>,
)
    requires
        s.wf(),
        lists(tracked_pairs, s.tracked_branches@),
        lists(authorized_pairs, s.authorized@),
    ensures
        with_pairs(RepoMap::empty(), tracked_pairs) == s.tracked_branches@,
        with_pairs(RepoMap::empty(), authorized_pairs) == s.authorized@,
{
    lemma_pairs_round_trip(tracked_pairs, s.tracked_branches@);
    lemma_pairs_round_trip(authorized_pairs, s.authorized@);
}

} // verus!
