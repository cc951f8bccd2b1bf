//! A discovered git repository, known by the path of its working directory.
use vstd::prelude::*;

verus! {

/// One repository root: the directory that holds a `.git` directory.
pub struct Repo {
    path: String,
}

impl View for Repo {
    type V = Seq<char>;

    closed spec fn view(&self) -> Seq<char> {
        self.path@
    }
}

impl Repo {
    pub fn new(path: String) -> (r: Repo)
        ensures
            r@ == path@,
    {
        Repo { path }
    }

    /// The repository's path.
    pub fn path(&self) -> (r: String)
        ensures
            r@ == self@,
    {
        self.path.clone()
    }

    /// The repository's path, borrowed.
    pub fn path_str(&self) -> (r: &str)
        ensures
            r@ == self@,
    {
        self.path.as_str()
    }
}

/// The paths of a list of repositories.
pub open spec fn repo_paths(v: Seq<Repo>) -> Seq<Seq<char>> {
    v.map_values(|r: Repo| r@)
}

} // verus!
