//! Turning what a directory walk yielded into the sorted list of repositories.
use vstd::multiset::Multiset;
use vstd::prelude::*;
use vstd::seq_lib::{to_multiset_contains, to_multiset_len};

use crate::config::{kept, GitGlobalConfig};
use crate::repo::{repo_paths, Repo};
use crate::text::{
    lemma_lex_le_antisymmetric, lemma_lex_le_total, lemma_lex_le_transitive, lex_le, str_eq, str_le,
};

verus! {

broadcast use vstd::seq_lib::group_to_multiset_ensures;

/// One entry that a directory walk yielded.
pub struct WalkEntry {
    /// The entry's full path.
    pub path: String,
    /// Whether the entry is a directory.
    pub is_dir: bool,
    /// The last component of the path.
    pub file_name: String,
    /// The directory that holds the entry, where it can be told.
    pub parent: Option<String>,
}

/// The name of the directory that marks a repository root.
pub open spec fn marker_name() -> Seq<char> {
    seq!['.', 'g', 'i', 't']
}

/// The entry is a directory named `.git`.
pub open spec fn is_marker(e: WalkEntry) -> bool {
    e.is_dir && e.file_name@ == marker_name()
}

/// The repository path that an entry contributes, if any: the parent of a kept
/// `.git` directory.
pub open spec fn found_in(patterns: Seq<Seq<char>>, e: WalkEntry) -> Option<Seq<char>> {
    if kept(patterns, e.path@) && is_marker(e) && e.parent is Some {
        Some(e.parent->0@)
    } else {
        None
    }
}

/// The repository paths that the entries contribute, in walk order.
pub open spec fn found_paths(patterns: Seq<Seq<char>>, entries: Seq<WalkEntry>) -> Seq<Seq<char>>
    decreases entries.len(),
{
    if entries.len() == 0 {
        Seq::empty()
    } else {
        let rest = found_paths(patterns, entries.drop_last());
        match found_in(patterns, entries.last()) {
            Some(p) => rest.push(p),
            None => rest,
        }
    }
}

/// Every element is `lex_le` every later one.
pub open spec fn sorted(s: Seq<Seq<char>>) -> bool {
    forall|i: int, j: int| 0 <= i < j < s.len() ==> lex_le(#[trigger] s[i], #[trigger] s[j])
}

/// Whether `e` names a `.git` directory.
fn is_marker_entry(e: &WalkEntry) -> (r: bool)
    ensures
        r == is_marker(*e),
{
    proof {
        reveal_strlit(".git");
    }
    assert(".git"@ =~= marker_name());
    e.is_dir && str_eq(e.file_name.as_str(), ".git")
}

/// Puts `r` into the sorted list `out`, after every path that is not greater.
fn insert_sorted(out: &mut Vec<Repo>, r: Repo)
    requires
        sorted(repo_paths(old(out)@)),
    ensures
        sorted(repo_paths(final(out)@)),
        repo_paths(final(out)@).to_multiset() == repo_paths(old(out)@).to_multiset().insert(r@),
{
    let ghost s = repo_paths(out@);
    let mut j: usize = 0;
    while j < out.len() && str_le(out[j].path_str(), r.path_str())
        invariant
            s == repo_paths(out@),
            j <= out@.len(),
            forall|k: int| 0 <= k < j ==> lex_le(#[trigger] s[k], r@),
        decreases out@.len() - j,
    {
        assert(s[j as int] == out@[j as int]@);
        j += 1;
    }
    proof {
        if j < out@.len() {
            assert(s[j as int] == out@[j as int]@);
            lemma_lex_le_total(s[j as int], r@);
        }
    }
    out.insert(j, r);
    let ghost t = repo_paths(out@);
    assert(t =~= s.insert(j as int, r@));
    assert forall|a: int, b: int| 0 <= a < b < t.len() implies lex_le(#[trigger] t[a], #[trigger] t[b]) by {
        if b < j {
            assert(lex_le(s[a], s[b]));
        } else if a < j && b == j {
        } else if a == j {
            if b > j + 1 {
                lemma_lex_le_transitive(r@, s[j as int], s[b - 1]);
            }
        } else if a < j {
            assert(lex_le(s[a], s[b - 1]));
        } else {
            assert(lex_le(s[a - 1], s[b - 1]));
        }
    }
}

impl GitGlobalConfig {
    /// The repositories that a walk yielded: the parent of every kept `.git`
    /// directory, sorted by path.
    pub fn collect_repos(&self, entries: &Vec<WalkEntry>) -> (r: Vec<Repo>)
        ensures
            sorted(repo_paths(r@)),
            repo_paths(r@).to_multiset() == found_paths(self.patterns(), entries@).to_multiset(),
    {
        let mut out: Vec<Repo> = Vec::new();
        let mut i: usize = 0;
        assert(entries@.take(0) =~= Seq::<WalkEntry>::empty());
        assert(repo_paths(out@) =~= Seq::<Seq<char>>::empty());
        while i < entries.len()
            invariant
                i <= entries@.len(),
                sorted(repo_paths(out@)),
                repo_paths(out@).to_multiset() == found_paths(
                    self.patterns(),
                    entries@.take(i as int),
                ).to_multiset(),
            decreases entries@.len() - i,
        {
            let e = &entries[i];
            assert(entries@.take(i + 1).drop_last() =~= entries@.take(i as int));
            assert(entries@.take(i + 1).last() == *e);
            if self.filter(e.path.as_str()) && is_marker_entry(e) {
                match &e.parent {
                    Some(p) => {
                        let repo = Repo::new(p.clone());
                        insert_sorted(&mut out, repo);
                    },
                    None => {},
                }
            }
            i += 1;
        }
        assert(entries@.take(i as int) =~= entries@);
        out
    }
}

} // verus!

verus! {

/// What one entry adds to the found paths.
pub open spec fn found_one(patterns: Seq<Seq<char>>, e: WalkEntry) -> Multiset<Seq<char>> {
    match found_in(patterns, e) {
        Some(p) => Multiset::singleton(p),
        None => Multiset::empty(),
    }
}

proof fn lemma_found_last(patterns: Seq<Seq<char>>, e: Seq<WalkEntry>)
    requires
        e.len() > 0,
    ensures
        found_paths(patterns, e).to_multiset() == found_paths(
            patterns,
            e.drop_last(),
        ).to_multiset().add(found_one(patterns, e.last())),
{
    let rest = found_paths(patterns, e.drop_last());
    match found_in(patterns, e.last()) {
        Some(p) => {
            assert(rest.push(p).to_multiset() =~= rest.to_multiset().add(Multiset::singleton(p)));
        },
        None => {
            assert(rest.to_multiset() =~= rest.to_multiset().add(Multiset::empty()));
        },
    }
}

proof fn lemma_found_remove(patterns: Seq<Seq<char>>, e: Seq<WalkEntry>, k: int)
    requires
        0 <= k < e.len(),
    ensures
        found_paths(patterns, e).to_multiset() == found_paths(
            patterns,
            e.remove(k),
        ).to_multiset().add(found_one(patterns, e[k])),
    decreases e.len(),
{
    lemma_found_last(patterns, e);
    let n = e.len() - 1;
    if k == n {
        assert(e.remove(k) =~= e.drop_last());
    } else {
        let d = e.drop_last();
        lemma_found_remove(patterns, d, k);
        let r = e.remove(k);
        assert(r.drop_last() =~= d.remove(k));
        assert(r.last() == e.last());
        lemma_found_last(patterns, r);
        let m = found_paths(patterns, d.remove(k)).to_multiset();
        assert(m.add(found_one(patterns, e[k])).add(found_one(patterns, e.last())) =~= m.add(
            found_one(patterns, e.last()),
        ).add(found_one(patterns, e[k])));
    }
}

/// The found paths, counted with repetition, depend only on which entries the
/// walk yielded, not on their order.
pub proof fn lemma_found_order_irrelevant(
    patterns: Seq<Seq<char>>,
    e1: Seq<WalkEntry>,
    e2: Seq<WalkEntry>,
)
    requires
        e1.to_multiset() == e2.to_multiset(),
    ensures
        found_paths(patterns, e1).to_multiset() == found_paths(patterns, e2).to_multiset(),
    decreases e1.len(),
{
    to_multiset_len(e1);
    to_multiset_len(e2);
    if e1.len() == 0 {
        assert(e2.len() == 0);
        assert(e2 =~= e1);
    } else {
        let n = e1.len() - 1;
        let x = e1.last();
        assert(e1.contains(x)) by {
            assert(e1[n] == x);
        }
        to_multiset_contains(e1, x);
        to_multiset_contains(e2, x);
        assert(e2.contains(x));
        let k = choose|k: int| 0 <= k < e2.len() && e2[k] == x;
        assert(e1.remove(n) =~= e1.drop_last());
        assert(e1.drop_last().to_multiset() == e2.remove(k).to_multiset());
        lemma_found_order_irrelevant(patterns, e1.drop_last(), e2.remove(k));
        lemma_found_remove(patterns, e1, n);
        lemma_found_remove(patterns, e2, k);
    }
}

/// Two sorted lists that hold the same paths, counted with repetition, are equal.
pub proof fn lemma_sorted_unique(a: Seq<Seq<char>>, b: Seq<Seq<char>>)
    requires
        sorted(a),
        sorted(b),
        a.to_multiset() == b.to_multiset(),
    ensures
        a == b,
    decreases a.len(),
{
    to_multiset_len(a);
    to_multiset_len(b);
    if a.len() == 0 {
        assert(b.len() == 0);
        assert(a =~= b);
    } else {
        assert(a.contains(a[0]));
        to_multiset_contains(a, a[0]);
        to_multiset_contains(b, a[0]);
        assert(b.contains(a[0]));
        assert(b.contains(b[0]));
        to_multiset_contains(a, b[0]);
        to_multiset_contains(b, b[0]);
        assert(a.contains(b[0]));
        let j = choose|j: int| 0 <= j < b.len() && b[j] == a[0];
        let i = choose|i: int| 0 <= i < a.len() && a[i] == b[0];
        if i > 0 && j > 0 {
            assert(lex_le(a[0], a[i]));
            assert(lex_le(b[0], b[j]));
            lemma_lex_le_antisymmetric(a[0], b[0]);
        }
        assert(a[0] == b[0]);
        assert(a.remove(0) =~= a.drop_first());
        assert(b.remove(0) =~= b.drop_first());
        lemma_sorted_unique(a.drop_first(), b.drop_first());
        assert(a =~= seq![a[0]] + a.drop_first());
        assert(b =~= seq![b[0]] + b.drop_first());
    }
}

/// Scanning an unchanged tree twice gives the same list both times, whatever
/// order the walk yields the entries in: any two results that `collect_repos`
/// may return for the same entries are equal.
pub proof fn lemma_rescan_same_result(
    config: GitGlobalConfig,
    e1: Seq<WalkEntry>,
    e2: Seq<WalkEntry>,
    r1: Seq<Repo>,
    r2: Seq<Repo>,
)
    requires
        e1.to_multiset() == e2.to_multiset(),
        sorted(repo_paths(r1)),
        repo_paths(r1).to_multiset() == found_paths(config.patterns(), e1).to_multiset(),
        sorted(repo_paths(r2)),
        repo_paths(r2).to_multiset() == found_paths(config.patterns(), e2).to_multiset(),
    ensures
        repo_paths(r1) == repo_paths(r2),
{
    lemma_found_order_irrelevant(config.patterns(), e1, e2);
    lemma_sorted_unique(repo_paths(r1), repo_paths(r2));
}

} // verus!
