//! Deciding where the list of repositories comes from: the cache when it exists,
//! else a fresh scan that is then cached.
use vstd::prelude::*;

use crate::cache::{cache_lines, cache_repos, cache_text, parse_cache};
use crate::config::GitGlobalConfig;
use crate::repo::{repo_paths, Repo};
use crate::walk::{found_paths, sorted, WalkEntry};

verus! {

/// What the caller observed since the last step.
pub enum RepoEvent {
    /// The lookup begins; whether the cache file exists.
    Started { cache_exists: bool },
    /// The cache file was read; its text.
    CacheRead(String),
    /// The base directory was walked; the entries that the walk yielded.
    Scanned(Vec<WalkEntry>),
}

/// What the caller is to do next.
pub enum RepoAction {
    /// Read the cache file and report `CacheRead`.
    ReadCache,
    /// Walk the base directory, consulting `GitGlobalConfig::filter` before
    /// descending, and report `Scanned`.
    Scan,
    /// Write `write` to the cache file where it is present, then return `repos`.
    Finish { repos: Vec<Repo>, write: Option<String> },
}

/// What `get_repos` does on each event.
pub open spec fn step_post(config: GitGlobalConfig, event: RepoEvent, action: RepoAction) -> bool {
    match event {
        RepoEvent::Started { cache_exists } => if cache_exists {
            action is ReadCache
        } else {
            action is Scan
        },
        RepoEvent::CacheRead(text) => match action {
            RepoAction::Finish { repos, write } => {
                &&& write is None
                &&& repo_paths(repos@) == cache_lines(text@)
            },
            _ => false,
        },
        RepoEvent::Scanned(entries) => match action {
            RepoAction::Finish { repos, write } => {
                &&& sorted(repo_paths(repos@))
                &&& repo_paths(repos@).to_multiset() == found_paths(
                    config.patterns(),
                    entries@,
                ).to_multiset()
                &&& write is Some
                &&& write->0@ == cache_text(repo_paths(repos@))
            },
            _ => false,
        },
    }
}

/// One step of a repository lookup: the cache is read when it exists; otherwise
/// the base directory is scanned and the result is both cached and returned.
pub fn get_repos(config: &GitGlobalConfig, event: RepoEvent) -> (action: RepoAction)
    ensures
        step_post(*config, event, action),
{
    match event {
        RepoEvent::Started { cache_exists } => if cache_exists {
            RepoAction::ReadCache
        } else {
            RepoAction::Scan
        },
        RepoEvent::CacheRead(text) => {
            let repos = parse_cache(text.as_str());
            RepoAction::Finish { repos, write: None }
        },
        RepoEvent::Scanned(entries) => {
            let repos = config.collect_repos(&entries);
            let text = cache_repos(&repos);
            RepoAction::Finish { repos, write: Some(text) }
        },
    }
}

/// A lookup that finds the cache never scans: it reads the cache, and then
/// finishes with exactly the cache's lines and writes nothing.
pub proof fn lemma_cache_hit_never_scans(
    config: GitGlobalConfig,
    text: String,
    first: RepoAction,
    second: RepoAction,
)
    requires
        step_post(config, RepoEvent::Started { cache_exists: true }, first),
        step_post(config, RepoEvent::CacheRead(text), second),
    ensures
        first is ReadCache,
        !(first is Scan),
        second is Finish,
        repo_paths(second->repos@) == cache_lines(text@),
        second->write is None,
{
}

} // verus!
