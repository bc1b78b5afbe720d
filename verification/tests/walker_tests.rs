use std::collections::HashMap;
use toge_core::index::Index;
use toge_core::walker::{
    has_hidden_ancestor_dir, is_hidden_dir_path, is_path_under, is_within_roots, walk, DirEntryInfo, Excludes,
};

fn entry(path: &str, is_dir: bool) -> DirEntryInfo {
    DirEntryInfo {
        path: path.to_string(),
        is_dir,
        is_symlink: false,
        size: 7,
        modified: 1,
        created: 2,
        accessed: 3,
    }
}

/// A small directory tree held in memory, listed the way `read_dir` lists a real one.
fn tree(entries: &[(&str, bool)]) -> HashMap<String, Vec<DirEntryInfo>> {
    let mut dirs: HashMap<String, Vec<DirEntryInfo>> = HashMap::new();
    for (path, is_dir) in entries {
        let parent = match path.rfind('/') {
            Some(0) => "/".to_string(),
            Some(i) => path[..i].to_string(),
            None => String::new(),
        };
        dirs.entry(parent).or_default().push(entry(path, *is_dir));
        if *is_dir {
            dirs.entry(path.to_string()).or_default();
        }
    }
    dirs
}

fn run_walk(dirs: &HashMap<String, Vec<DirEntryInfo>>, root: &str, ex: &Excludes, meta: bool) -> (Index, usize) {
    let mut idx = Index::new();
    let count = walk(root, &mut idx, ex, meta, |d: &str| dirs.get(d).cloned());
    (idx, count)
}

fn sample() -> HashMap<String, Vec<DirEntryInfo>> {
    tree(&[
        ("/w/docs", true),
        ("/w/docs/sub", true),
        ("/w/docs/foo.txt", false),
        ("/w/docs/bar.rs", false),
        ("/w/docs/sub/baz.md", false),
        ("/w/music.mp3", false),
    ])
}

#[test]
fn tests_test_walk_indexes_all_files_and_dirs() {
    let dirs = sample();
    let (idx, count) = run_walk(&dirs, "/w", &Excludes::new(), false);
    assert!(count >= 6, "expected at least 4 files + 2 dirs, got {}", count);
    assert_eq!(idx.count(), count);

    let txt_ids = idx.search_substring("foo.txt");
    assert_eq!(txt_ids.len(), 1);

    let mp3_ids = idx.search_substring("music.mp3");
    assert_eq!(mp3_ids.len(), 1);
}

#[test]
fn tests_test_excludes_system_paths() {
    let ex = Excludes {
        skip_system_paths: true,
        ..Excludes::new()
    };
    assert!(ex.is_excluded("/proc"));
    assert!(ex.is_excluded("/sys"));
    assert!(ex.is_excluded("/dev"));
    assert!(!ex.is_excluded("/home/user"));
}

#[test]
fn walk_skips_hidden_directories_and_optionally_hidden_files() {
    let dirs = tree(&[
        ("/w/.hidden", true),
        ("/w/.hidden/secret.txt", false),
        ("/w/.dotfile", false),
        ("/w/visible.txt", false),
    ]);
    let (idx, _) = run_walk(&dirs, "/w", &Excludes::new(), false);
    assert!(idx.search_substring("secret.txt").is_empty());
    assert!(!idx.search_substring(".dotfile").is_empty());
    let ex = Excludes { skip_hidden: true, ..Excludes::new() };
    let (idx, _) = run_walk(&dirs, "/w", &ex, false);
    assert!(idx.search_substring(".dotfile").is_empty());
    assert!(!idx.search_substring("visible.txt").is_empty());
}

#[test]
fn walk_applies_patterns_folders_paths_and_include_only() {
    let dirs = tree(&[
        ("/w/keep.txt", false),
        ("/w/drop.tmp", false),
        ("/w/node_modules", true),
        ("/w/node_modules/pkg.js", false),
        ("/w/app.js", false),
        ("/w/skip", true),
        ("/w/skip/inner.txt", false),
    ]);
    let ex = Excludes {
        patterns: vec!["*.tmp".into()],
        folders: vec!["**/node_modules".into()],
        paths: vec!["/w/skip".into()],
        ..Excludes::new()
    };
    let (idx, count) = run_walk(&dirs, "/w", &ex, false);
    assert_eq!(count, 2);
    assert!(!idx.search_substring("keep.txt").is_empty());
    assert!(!idx.search_substring("app.js").is_empty());
    assert!(idx.search_substring("drop.tmp").is_empty());
    assert!(idx.search_substring("pkg.js").is_empty());
    assert!(idx.search_substring("inner.txt").is_empty());

    let only = Excludes { include_only: vec!["*.js".into()], ..Excludes::new() };
    let (idx, _) = run_walk(&dirs, "/w", &only, false);
    assert!(!idx.search_substring("app.js").is_empty());
    assert!(idx.search_substring("keep.txt").is_empty());
}

#[test]
fn walk_skips_symlinks_and_records_metadata_on_request() {
    let mut dirs = sample();
    dirs.get_mut("/w").unwrap().push(DirEntryInfo {
        path: "/w/link".into(),
        is_dir: true,
        is_symlink: true,
        size: 0,
        modified: 0,
        created: 0,
        accessed: 0,
    });
    let (idx, count) = run_walk(&dirs, "/w", &Excludes::new(), true);
    assert_eq!(count, 6);
    assert!(idx.search_substring("link").is_empty());
    let id = idx.search_substring("foo.txt")[0];
    assert_eq!(idx.entries[id as usize].size, 7);
    let (idx, _) = run_walk(&dirs, "/w", &Excludes::new(), false);
    let id = idx.search_substring("foo.txt")[0];
    assert_eq!(idx.entries[id as usize].size, 0);
}

#[test]
fn hidden_path_rules() {
    assert!(has_hidden_ancestor_dir("/home/a/.config/x"));
    assert!(!has_hidden_ancestor_dir("/home/a/.x"));
    assert!(has_hidden_ancestor_dir("../x"));
    assert!(is_hidden_dir_path("/home/a/.cache", true));
    assert!(!is_hidden_dir_path("/home/a/.cache", false));
    assert!(!is_hidden_dir_path("/home/a/.", true));
}

#[test]
fn glob_rules_of_the_excludes() {
    let ex = Excludes { patterns: vec!["a?c".into(), "x*z".into()], ..Excludes::new() };
    assert!(ex.is_excluded("/d/abc"));
    assert!(ex.is_excluded("/d/xyyz"));
    assert!(!ex.is_excluded("/d/abcd"));
    let ex = Excludes { paths: vec!["/d//e/".into()], ..Excludes::new() };
    assert!(ex.is_excluded("/d/e/f"));
    assert!(!ex.is_excluded("/d/ef"));
}

#[test]
fn test_walk_indexes_all_files_and_dirs() {
    let dirs = sample();
    let (idx, count) = run_walk(&dirs, "/w", &Excludes::new(), false);
    assert!(count >= 6, "expected at least 4 files + 2 dirs, got {}", count);
    assert_eq!(idx.count(), count);

    let txt_ids = idx.search_substring("foo.txt");
    assert_eq!(txt_ids.len(), 1);

    let mp3_ids = idx.search_substring("music.mp3");
    assert_eq!(mp3_ids.len(), 1);
}

#[test]
fn test_excludes_system_paths() {
    let ex = Excludes {
        skip_system_paths: true,
        ..Excludes::new()
    };
    assert!(ex.is_excluded("/proc"));
    assert!(ex.is_excluded("/sys"));
    assert!(ex.is_excluded("/dev"));
    assert!(!ex.is_excluded("/home/user"));
}

#[test]
fn exclusion_globs_match_any_character_after_a_star() {
    let ex = Excludes { patterns: vec!["*?".into()], ..Excludes::new() };
    assert!(ex.is_excluded("/home/u/ab"));
    let ex = Excludes { patterns: vec!["*.mp3".into()], ..Excludes::new() };
    assert!(ex.is_excluded("/m/song.mp3"));
    assert!(!ex.is_excluded("/m/a.mp3x"));
    let ex = Excludes { patterns: vec!["a*?c".into()], ..Excludes::new() };
    assert!(ex.is_excluded("/x/abbc"));
    assert!(!ex.is_excluded("/x/ac"));
    let ex = Excludes { folders: vec!["**/b*?".into()], ..Excludes::new() };
    assert!(ex.is_excluded("/x/bz/file"));
}

#[test]
fn paths_are_under_roots_by_whole_components() {
    assert!(is_path_under("/home/a/x.txt", "/home/a"));
    assert!(is_path_under("/home/a", "/home/a/"));
    assert!(is_path_under("/home//a/./x", "/home/a"));
    assert!(!is_path_under("/home/ab/x.txt", "/home/a"));
    assert!(!is_path_under("/home", "/home/a"));
    assert!(!is_path_under("home/a", "/home"));
    let roots = vec!["/data".to_string(), "/srv/www".to_string()];
    assert!(is_within_roots("/srv/www/index.html", &roots));
    assert!(!is_within_roots("/srv/other", &roots));
}
