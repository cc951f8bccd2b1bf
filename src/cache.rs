//! The cache file's text: one repository path per line.
use vstd::prelude::*;

use crate::repo::{repo_paths, Repo};
use crate::text::{chars_of, lemma_split_on_nonempty, split_at_char, split_on, views_of};

verus! {

/// The cache text for a list of paths: each path followed by a newline.
pub open spec fn cache_text(paths: Seq<Seq<char>>) -> Seq<char>
    decreases paths.len(),
{
    if paths.len() == 0 {
        Seq::empty()
    } else {
        cache_text(paths.drop_last()) + paths.last() + seq!['\n']
    }
}

/// A line without the carriage return that may end it.
pub open spec fn strip_cr(l: Seq<char>) -> Seq<char> {
    if l.len() > 0 && l.last() == '\r' {
        l.drop_last()
    } else {
        l
    }
}

/// The lines of a text as `BufRead::lines` yields them: split at each newline, a
/// carriage return before the newline dropped, and no line after a final newline.
pub open spec fn cache_lines(t: Seq<char>) -> Seq<Seq<char>> {
    let parts = split_on(t, '\n');
    let full = parts.drop_last().map_values(|l: Seq<char>| strip_cr(l));
    if parts.last().len() == 0 {
        full
    } else {
        full.push(parts.last())
    }
}

/// The cache text for `repos`, in their order.
pub fn cache_repos(repos: &Vec<Repo>) -> (r: String)
    ensures
        r@ == cache_text(repo_paths(repos@)),
{
    let mut r = String::new();
    let mut i: usize = 0;
    proof {
        reveal_strlit("\n");
    }
    assert(repo_paths(repos@).take(0) =~= Seq::<Seq<char>>::empty());
    while i < repos.len()
        invariant
            i <= repos@.len(),
            r@ == cache_text(repo_paths(repos@).take(i as int)),
            "\n"@ == seq!['\n'],
        decreases repos@.len() - i,
    {
        r.append(repos[i].path_str());
        r.append("\n");
        assert(repo_paths(repos@).take(i + 1).drop_last() =~= repo_paths(repos@).take(i as int));
        i += 1;
    }
    assert(repo_paths(repos@).take(i as int) =~= repo_paths(repos@));
    r
}

/// `line` without a final carriage return.
fn without_cr(line: &str) -> (r: String)
    ensures
        r@ == strip_cr(line@),
{
    let c = chars_of(line);
    let n: usize = c.len();
    if n > 0 && c[n - 1] == '\r' {
        String::from_str(line.substring_char(0, n - 1))
    } else {
        String::from_str(line)
    }
}

/// The repositories listed in the cache text `text`, one per line, in file order.
pub fn parse_cache(text: &str) -> (r: Vec<Repo>)
    ensures
        repo_paths(r@) == cache_lines(text@),
{
    let parts = split_at_char(text, '\n');
    proof {
        lemma_split_on_nonempty(text@, '\n');
    }
    let ghost sp = split_on(text@, '\n');
    let last: usize = parts.len() - 1;
    let mut r: Vec<Repo> = Vec::new();
    let mut i: usize = 0;
    while i < last
        invariant
            views_of(parts@) == sp,
            last == sp.len() - 1,
            i <= last,
            repo_paths(r@) =~= sp.take(i as int).map_values(|l: Seq<char>| strip_cr(l)),
        decreases last - i,
    {
        assert(views_of(parts@)[i as int] == parts@[i as int]@);
        let ghost before = r@;
        let line = without_cr(parts[i].as_str());
        r.push(Repo::new(line));
        assert(sp.take(i + 1) =~= sp.take(i as int).push(sp[i as int]));
        assert(repo_paths(r@) =~= repo_paths(before).push(strip_cr(sp[i as int])));
        i += 1;
    }
    assert(sp.take(last as int) =~= sp.drop_last());
    assert(views_of(parts@)[last as int] == parts@[last as int]@);
    let tail = parts[last].as_str();
    if chars_of(tail).len() > 0 {
        let ghost before = r@;
        r.push(Repo::new(String::from_str(tail)));
        assert(repo_paths(r@) =~= repo_paths(before).push(sp.last()));
    }
    r
}

} // verus!

verus! {

/// A path that a cache line can hold: no newline in it, and no carriage return
/// at its end.
pub open spec fn storable(p: Seq<char>) -> bool {
    &&& !p.contains('\n')
    &&& !(p.len() > 0 && p.last() == '\r')
}

/// Appending text free of `sep` extends the last piece.
proof fn lemma_split_on_append(x: Seq<char>, y: Seq<char>, sep: char)
    requires
        !y.contains(sep),
    ensures
        split_on(x + y, sep) == split_on(x, sep).update(
            split_on(x, sep).len() - 1,
            split_on(x, sep).last() + y,
        ),
    decreases y.len(),
{
    lemma_split_on_nonempty(x, sep);
    let s = split_on(x, sep);
    if y.len() == 0 {
        assert(x + y =~= x);
        assert(s.last() + y =~= s.last());
        assert(s.update(s.len() - 1, s.last()) =~= s);
    } else {
        let y0 = y.drop_last();
        assert(!y0.contains(sep)) by {
            if y0.contains(sep) {
                let k = choose|k: int| 0 <= k < y0.len() && y0[k] == sep;
                assert(y[k] == sep);
            }
        }
        lemma_split_on_append(x, y0, sep);
        assert((x + y).drop_last() =~= x + y0);
        assert((x + y).last() == y.last());
        assert(y.last() != sep) by {
            assert(y[y.len() - 1] == y.last());
        }
        assert((s.last() + y0).push(y.last()) =~= s.last() + y);
        let s0 = split_on(x + y0, sep);
        assert(s0.update(s0.len() - 1, s0.last().push(y.last())) =~= s.update(
            s.len() - 1,
            s.last() + y,
        ));
    }
}

/// The pieces of a cache text are its paths and one empty piece after the last
/// newline.
proof fn lemma_split_cache_text(paths: Seq<Seq<char>>)
    requires
        forall|k: int| 0 <= k < paths.len() ==> storable(#[trigger] paths[k]),
    ensures
        split_on(cache_text(paths), '\n') == paths.push(Seq::<char>::empty()),
    decreases paths.len(),
{
    if paths.len() == 0 {
        assert(split_on(Seq::<char>::empty(), '\n') =~= seq![Seq::<char>::empty()]);
        assert(paths.push(Seq::<char>::empty()) =~= seq![Seq::<char>::empty()]);
    } else {
        let init = paths.drop_last();
        let p = paths.last();
        assert(storable(paths[paths.len() - 1]));
        lemma_split_cache_text(init);
        let x = cache_text(init);
        lemma_split_on_append(x, p, '\n');
        let s = split_on(x + p, '\n');
        assert(s =~= init.push(p));
        let t = cache_text(paths);
        assert(t =~= (x + p).push('\n'));
        assert(t.drop_last() =~= x + p);
        assert(split_on(t, '\n') == s.push(Seq::<char>::empty()));
        assert(init.push(p) =~= paths);
    }
}

/// Writing paths to the cache and reading them back gives the same paths in the
/// same order, for every list of storable paths, the empty list included.
pub proof fn lemma_cache_round_trip(paths: Seq<Seq<char>>)
    requires
        forall|k: int| 0 <= k < paths.len() ==> storable(#[trigger] paths[k]),
    ensures
        cache_lines(cache_text(paths)) == paths,
{
    lemma_split_cache_text(paths);
    let parts = paths.push(Seq::<char>::empty());
    assert(parts.drop_last() =~= paths);
    assert forall|k: int| 0 <= k < paths.len() implies strip_cr(#[trigger] paths[k]) == paths[k] by {
        assert(storable(paths[k]));
    }
    assert(paths.map_values(|l: Seq<char>| strip_cr(l)) =~= paths);
}

/// An empty cache file lists no repositories.
pub proof fn lemma_empty_cache_lists_nothing()
    ensures
        cache_lines(Seq::<char>::empty()) == Seq::<Seq<char>>::empty(),
{
    assert(split_on(Seq::<char>::empty(), '\n') =~= seq![Seq::<char>::empty()]);
    assert(cache_lines(Seq::<char>::empty()) =~= Seq::<Seq<char>>::empty());
}

} // verus!
