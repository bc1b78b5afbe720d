use toge_core::config::Config;
use toge_core::plan::{discover_roots, excludes_for, fetches_metadata};

#[test]
fn roots_fall_back_to_the_home_directory() {
    let mut c = Config::default_config(None);
    c.roots = vec![];
    assert_eq!(discover_roots(&c, Some("/home/u".into())), vec!["/home/u".to_string()]);
    assert!(discover_roots(&c, None).is_empty());
    c.roots = vec!["/data".into(), "/srv".into()];
    assert_eq!(
        discover_roots(&c, Some("/home/u".into())),
        vec!["/data".to_string(), "/srv".to_string()]
    );
}

#[test]
fn excludes_and_metadata_come_from_the_settings() {
    let mut c = Config::default_config(None);
    c.exclude_hidden = true;
    c.exclude_patterns = vec!["*.tmp".into()];
    c.exclude_folders = vec!["**/node_modules".into()];
    c.include_only = vec!["*.rs".into()];
    let e = excludes_for(&c);
    assert!(e.skip_hidden);
    assert!(e.skip_system_paths);
    assert_eq!(e.patterns, vec!["*.tmp".to_string()]);
    assert_eq!(e.folders, vec!["**/node_modules".to_string()]);
    assert!(e.paths.is_empty());
    assert_eq!(e.include_only, vec!["*.rs".to_string()]);
    c.index_size = false;
    c.index_date_modified = false;
    c.index_date_created = false;
    c.index_date_accessed = false;
    assert!(!fetches_metadata(&c));
    c.index_date_accessed = true;
    assert!(fetches_metadata(&c));
}
