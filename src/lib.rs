//! Discovery and caching of the git repositories found under a base directory.
pub mod cache;
pub mod config;
pub mod lookup;
pub mod repo;
pub mod text;
pub mod walk;

pub use cache::{cache_repos, parse_cache};
pub use config::{parse_patterns, GitGlobalConfig};
pub use lookup::{get_repos, RepoAction, RepoEvent};
pub use repo::Repo;
pub use walk::WalkEntry;
