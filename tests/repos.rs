use git_global::{
    cache_repos, get_repos, parse_cache, parse_patterns, GitGlobalConfig, Repo, RepoAction,
    RepoEvent, WalkEntry,
};

fn config(patterns: &[&str]) -> GitGlobalConfig {
    GitGlobalConfig {
        basedir: "/base".to_string(),
        ignored_patterns: patterns.iter().map(|p| p.to_string()).collect(),
        cache_file: "/cache/repos.txt".to_string(),
    }
}

fn dir(path: &str) -> WalkEntry {
    let (parent, name) = match path.rfind('/') {
        Some(0) => (Some("/".to_string()), path[1..].to_string()),
        Some(i) => (Some(path[..i].to_string()), path[i + 1..].to_string()),
        None => (None, path.to_string()),
    };
    WalkEntry { path: path.to_string(), is_dir: true, file_name: name, parent }
}

fn file(path: &str) -> WalkEntry {
    let mut e = dir(path);
    e.is_dir = false;
    e
}

fn paths(repos: &[Repo]) -> Vec<String> {
    repos.iter().map(|r| r.path()).collect()
}

#[test]
fn filter_keeps_everything_without_patterns() {
    assert!(config(&[]).filter("/home/me/src/node_modules"));
    assert!(config(&[""]).filter("/home/me/src/node_modules"));
    assert!(config(&[""]).filter(""));
}

#[test]
fn filter_drops_paths_containing_a_pattern() {
    let c = config(&["", "node_modules", "vendor"]);
    assert!(!c.filter("/home/me/src/node_modules"));
    assert!(!c.filter("/home/me/src/node_modules/x/.git"));
    assert!(!c.filter("/vendor"));
    assert!(c.filter("/home/me/src/project"));
}

#[test]
fn filter_matches_plain_case_sensitive_substrings() {
    let c = config(&["a*b", "Skip"]);
    assert!(c.filter("/x/aXb"));
    assert!(!c.filter("/x/a*b/y"));
    assert!(c.filter("/x/skip"));
    assert!(!c.filter("/x/Skip"));
    assert!(c.filter("/x/Ski"));
}

#[test]
fn patterns_are_split_at_commas_and_trimmed() {
    assert_eq!(parse_patterns(" vendor , node_modules,tmp "), vec!["vendor", "node_modules", "tmp"]);
    assert_eq!(parse_patterns("a,,b,"), vec!["a", "", "b", ""]);
    assert_eq!(parse_patterns(""), vec![""]);
    assert_eq!(parse_patterns("\tone\n"), vec!["one"]);
}

#[test]
fn new_falls_back_to_home_and_no_patterns() {
    let c = GitGlobalConfig::new("/home/me".to_string(), None, None, "/home/me/.cache/git-global".to_string());
    assert_eq!(c.basedir, "/home/me");
    assert!(c.ignored_patterns.is_empty());
    assert_eq!(c.cache_file, "/home/me/.cache/git-global/repos.txt");
}

#[test]
fn new_uses_the_settings_where_set() {
    let c = GitGlobalConfig::new(
        "/home/me".to_string(),
        Some("/work".to_string()),
        Some("skip-me, target".to_string()),
        "/c/".to_string(),
    );
    assert_eq!(c.basedir, "/work");
    assert_eq!(c.ignored_patterns, vec!["skip-me", "target"]);
    assert_eq!(c.cache_file, "/c/repos.txt");
    let c = GitGlobalConfig::new("/h".to_string(), None, Some(String::new()), String::new());
    assert_eq!(c.ignored_patterns, vec![""]);
    assert_eq!(c.cache_file, "repos.txt");
}

#[test]
fn walk_result_is_sorted_by_path() {
    let entries = vec![
        dir("/a"),
        dir("/a/z"),
        dir("/a/z/.git"),
        dir("/a/m"),
        dir("/a/m/.git"),
        dir("/a/a"),
        dir("/a/a/.git"),
    ];
    let repos = config(&[]).collect_repos(&entries);
    assert_eq!(paths(&repos), vec!["/a/a", "/a/m", "/a/z"]);
}

#[test]
fn walk_skips_ignored_directories() {
    let entries = vec![
        dir("/base"),
        dir("/base/keep"),
        dir("/base/keep/.git"),
        dir("/base/skip-me"),
        dir("/base/skip-me/.git"),
    ];
    let repos = config(&["skip-me"]).collect_repos(&entries);
    assert_eq!(paths(&repos), vec!["/base/keep"]);
}

#[test]
fn walk_reports_the_parent_of_a_git_directory() {
    let entries = vec![
        dir("/base"),
        dir("/base/proj"),
        dir("/base/proj/.git"),
        dir("/base/proj/.git/objects"),
        dir("/base/sibling"),
        file("/base/sibling/.git"),
        dir("/base/other/git"),
    ];
    let repos = config(&[]).collect_repos(&entries);
    assert_eq!(paths(&repos), vec!["/base/proj"]);
}

#[test]
fn walk_skips_a_marker_without_parent() {
    let entries = vec![dir(".git")];
    assert!(config(&[]).collect_repos(&entries).is_empty());
    assert!(config(&[]).collect_repos(&Vec::new()).is_empty());
}

#[test]
fn walk_gives_the_same_list_in_any_entry_order() {
    let a = vec![dir("/r/b/.git"), dir("/r/a/.git"), dir("/r/c/.git"), dir("/r/ab/.git")];
    let b = vec![dir("/r/ab/.git"), dir("/r/c/.git"), dir("/r/a/.git"), dir("/r/b/.git")];
    let c = config(&[]);
    let first = paths(&c.collect_repos(&a));
    assert_eq!(first, paths(&c.collect_repos(&b)));
    assert_eq!(first, paths(&c.collect_repos(&a)));
    assert_eq!(first, vec!["/r/a", "/r/ab", "/r/b", "/r/c"]);
}

#[test]
fn cache_text_has_one_line_per_repo() {
    let repos = vec![Repo::new("/a/b".to_string()), Repo::new("/c".to_string())];
    assert_eq!(cache_repos(&repos), "/a/b\n/c\n");
    assert_eq!(cache_repos(&Vec::new()), "");
}

#[test]
fn cache_is_read_line_by_line() {
    assert_eq!(paths(&parse_cache("/a\n/b\n")), vec!["/a", "/b"]);
    assert_eq!(paths(&parse_cache("/a\r\n/b")), vec!["/a", "/b"]);
    assert_eq!(paths(&parse_cache("/a\n\n")), vec!["/a", ""]);
    assert_eq!(paths(&parse_cache("\n")), vec![""]);
    assert_eq!(paths(&parse_cache("/a\r")), vec!["/a\r"]);
}

#[test]
fn empty_cache_lists_no_repos() {
    assert!(parse_cache("").is_empty());
}

#[test]
fn cache_round_trip_keeps_paths_and_order() {
    let list = vec!["/z", "/a", "/home/me/src/x y", "", "/ünïcode"];
    let repos: Vec<Repo> = list.iter().map(|p| Repo::new(p.to_string())).collect();
    let back = parse_cache(&cache_repos(&repos));
    assert_eq!(paths(&back), list);
    assert!(parse_cache(&cache_repos(&Vec::new())).is_empty());
}

#[test]
fn lookup_reads_an_existing_cache_and_never_scans() {
    let c = config(&[]);
    assert!(matches!(get_repos(&c, RepoEvent::Started { cache_exists: true }), RepoAction::ReadCache));
    match get_repos(&c, RepoEvent::CacheRead("/x\n/a\n".to_string())) {
        RepoAction::Finish { repos, write } => {
            assert_eq!(paths(&repos), vec!["/x", "/a"]);
            assert!(write.is_none());
        }
        _ => panic!("expected the lookup to finish"),
    }
}

#[test]
fn lookup_with_empty_cache_finishes_empty() {
    let c = config(&[]);
    assert!(matches!(get_repos(&c, RepoEvent::Started { cache_exists: true }), RepoAction::ReadCache));
    match get_repos(&c, RepoEvent::CacheRead(String::new())) {
        RepoAction::Finish { repos, write } => {
            assert!(repos.is_empty());
            assert!(write.is_none());
        }
        _ => panic!("expected the lookup to finish"),
    }
}

#[test]
fn lookup_without_cache_scans_and_writes_the_cache() {
    let c = config(&["skip"]);
    assert!(matches!(get_repos(&c, RepoEvent::Started { cache_exists: false }), RepoAction::Scan));
    let entries = vec![dir("/base/q/.git"), dir("/base/p/.git"), dir("/base/skip/.git")];
    match get_repos(&c, RepoEvent::Scanned(entries)) {
        RepoAction::Finish { repos, write } => {
            assert_eq!(paths(&repos), vec!["/base/p", "/base/q"]);
            assert_eq!(write, Some("/base/p\n/base/q\n".to_string()));
        }
        _ => panic!("expected the lookup to finish"),
    }
}
