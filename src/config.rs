//! The settings that a scan runs with: where to look, what to skip, where to cache.
use vstd::prelude::*;

use crate::text::{chars_of, contains_chars, is_substring, split_at_char, split_on, views_of};

verus! {

/// Name of the file, inside the cache directory, that lists the known repositories.
pub open spec fn cache_file_name() -> Seq<char> {
    seq!['r', 'e', 'p', 'o', 's', '.', 't', 'x', 't']
}

/// The cache file's path inside directory `dir`, joined as `PathBuf::push` joins a
/// relative name.
pub open spec fn cache_file_in(dir: Seq<char>) -> Seq<char> {
    if dir.len() == 0 || dir.last() == '/' {
        dir + cache_file_name()
    } else {
        dir + seq!['/'] + cache_file_name()
    }
}

/// What `str::trim` leaves of a string.
pub uninterp spec fn trimmed(s: Seq<char>) -> Seq<char>;

/// Relies on `str::trim`: leading and trailing Unicode white space is removed,
/// and the result depends on the characters alone.
#[verifier::external_body]
fn trim_str(s: &str) -> (r: String)
    ensures
        r@ == trimmed(s@),
{
    s.trim().to_string()
}

/// The ignore patterns read from a comma-separated setting: each piece, trimmed.
/// With no setting there are no patterns.
pub open spec fn parsed_patterns(setting: Option<Seq<char>>) -> Seq<Seq<char>> {
    match setting {
        None => Seq::empty(),
        Some(s) => split_on(s, ',').map_values(|p: Seq<char>| trimmed(p)),
    }
}

/// A path is kept when no non-empty pattern occurs in it.
pub open spec fn kept(patterns: Seq<Seq<char>>, path: Seq<char>) -> bool {
    forall|k: int|
        0 <= k < patterns.len() && patterns[k].len() > 0 ==> !is_substring(
            #[trigger] patterns[k],
            path,
        )
}

/// Splits a comma-separated list and trims each piece.
pub fn parse_patterns(setting: &str) -> (r: Vec<String>)
    ensures
        views_of(r@) == parsed_patterns(Some(setting@)),
{
    let pieces = split_at_char(setting, ',');
    let mut r: Vec<String> = Vec::new();
    let mut i: usize = 0;
    while i < pieces.len()
        invariant
            i <= pieces@.len(),
            views_of(pieces@) == split_on(setting@, ','),
            views_of(r@) =~= split_on(setting@, ',').take(i as int).map_values(
                |p: Seq<char>| trimmed(p),
            ),
        decreases pieces@.len() - i,
    {
        let ghost before = r@;
        assert(views_of(pieces@)[i as int] == pieces@[i as int]@);
        let t = trim_str(pieces[i].as_str());
        r.push(t);
        assert(split_on(setting@, ',').take(i + 1) =~= split_on(setting@, ',').take(i as int).push(
            pieces@[i as int]@,
        ));
        assert(views_of(r@) =~= views_of(before).push(t@));
        i += 1;
    }
    assert(split_on(setting@, ',').take(i as int) =~= split_on(setting@, ','));
    r
}

/// Configuration of a scan.
pub struct GitGlobalConfig {
    /// The directory under which repositories are looked for.
    pub basedir: String,
    /// A directory whose path contains one of these (non-empty) strings is skipped.
    pub ignored_patterns: Vec<String>,
    /// Where the list of known repositories is kept.
    pub cache_file: String,
}

impl GitGlobalConfig {
    /// The ignore patterns, as character sequences.
    pub open spec fn patterns(&self) -> Seq<Seq<char>> {
        views_of(self.ignored_patterns@)
    }

    /// Builds the configuration from what the environment gave: the home directory,
    /// the base-directory and ignore settings where they are set, and the
    /// application's cache directory.
    pub fn new(
        home_dir: String,
        basedir_setting: Option<String>,
        ignore_setting: Option<String>,
        cache_dir: String,
    ) -> (c: GitGlobalConfig)
        ensures
            c.basedir@ == (match basedir_setting {
                Some(b) => b@,
                None => home_dir@,
            }),
            c.patterns() == parsed_patterns(
                match ignore_setting {
                    Some(s) => Some(s@),
                    None => None,
                },
            ),
            c.cache_file@ == cache_file_in(cache_dir@),
    {
        let basedir = match basedir_setting {
            Some(b) => b,
            None => home_dir,
        };
        let ignored_patterns = match ignore_setting {
            Some(s) => parse_patterns(s.as_str()),
            None => {
                let v: Vec<String> = Vec::new();
                assert(views_of(v@) =~= Seq::<Seq<char>>::empty());
                v
            },
        };
        let mut cache_file = cache_dir.clone();
        let n: usize = cache_dir.as_str().unicode_len();
        proof {
            reveal_strlit("repos.txt");
            reveal_strlit("/");
        }
        if n > 0 && cache_dir.as_str().get_char(n - 1) != '/' {
            cache_file.append("/");
        }
        cache_file.append("repos.txt");
        assert("repos.txt"@ =~= cache_file_name());
        GitGlobalConfig { basedir, ignored_patterns, cache_file }
    }

    /// Whether a directory entry at `entry_path` is considered, and descended into,
    /// by a scan.
    pub fn filter(&self, entry_path: &str) -> (r: bool)
        ensures
            r == kept(self.patterns(), entry_path@),
    {
        let path = chars_of(entry_path);
        let mut i: usize = 0;
        while i < self.ignored_patterns.len()
            invariant
                path@ == entry_path@,
                i <= self.patterns().len(),
                forall|k: int|
                    0 <= k < i && self.patterns()[k].len() > 0 ==> !is_substring(
                        #[trigger] self.patterns()[k],
                        entry_path@,
                    ),
            decreases self.patterns().len() - i,
        {
            let p = chars_of(self.ignored_patterns[i].as_str());
            assert(self.patterns()[i as int] == p@);
            if p.len() > 0 && contains_chars(&path, &p) {
                return false;
            }
            i += 1;
        }
        true
    }
}

/// With no patterns, or only the empty pattern, every path is kept.
pub proof fn lemma_no_pattern_keeps_all(path: Seq<char>)
    ensures
        kept(Seq::empty(), path),
        kept(seq![Seq::<char>::empty()], path),
{
}

} // verus!
