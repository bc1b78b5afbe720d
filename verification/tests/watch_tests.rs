use toge_core::index::{FileMeta, Index};
use toge_core::sys::WatchEvent;
use toge_core::watch::{
    apply_event, concerns_roots, finish_batch, install_results, is_own_path, record_watch, EventFacts,
    WatcherStatus,
};

const STATE: &str = "/home/u/.local/state/needle";
const CONFIG: &str = "/home/u/.config/needle";

fn facts(size: u64, to_is_dir: bool, meta: Option<FileMeta>) -> EventFacts {
    EventFacts { size, now: 1000, to_is_dir, meta }
}

#[test]
fn own_paths_are_those_under_state_or_settings() {
    assert!(is_own_path("/home/u/.local/state/needle/index.bin", STATE, CONFIG));
    assert!(is_own_path("/home/u/.config/needle/config.toml", STATE, CONFIG));
    assert!(!is_own_path("/home/u/docs/a.txt", STATE, CONFIG));
    assert!(is_own_path("/anything", "", CONFIG));
}

#[test]
fn created_file_is_indexed_with_its_size_and_the_clock() {
    let mut idx = Index::new();
    let mut st = WatcherStatus::new();
    let ev = WatchEvent::Create { path: "/home/u/docs/a.txt".into(), is_dir: false };
    let out = apply_event(&mut idx, &mut st, &ev, STATE, CONFIG, facts(42, false, None));
    assert_eq!(out.watch_dir, None);
    assert!(!out.reindex);
    assert_eq!(idx.count(), 1);
    let e = &idx.entries[0];
    assert_eq!(e.path, "/home/u/docs/a.txt");
    assert_eq!(e.size, 42);
    assert_eq!(e.modified, 1000);
}

#[test]
fn created_directory_is_to_be_watched() {
    let mut idx = Index::new();
    let mut st = WatcherStatus::new();
    let ev = WatchEvent::Create { path: "/home/u/new".into(), is_dir: true };
    let out = apply_event(&mut idx, &mut st, &ev, STATE, CONFIG, facts(0, false, None));
    assert_eq!(out.watch_dir, Some("/home/u/new".to_string()));
    assert_eq!(idx.count(), 1);
}

#[test]
fn events_under_own_directories_are_left_alone() {
    let mut idx = Index::new();
    let mut st = WatcherStatus::new();
    let ev = WatchEvent::Create { path: "/home/u/.local/state/needle/index.bin".into(), is_dir: false };
    let out = apply_event(&mut idx, &mut st, &ev, STATE, CONFIG, facts(1, false, None));
    assert_eq!(out.watch_dir, None);
    assert_eq!(idx.count(), 0);
}

#[test]
fn delete_modify_and_move_change_the_index() {
    let mut idx = Index::new();
    idx.insert("/home/u/a.txt", false);
    idx.insert("/home/u/b.txt", false);
    let mut st = WatcherStatus::new();
    apply_event(&mut idx, &mut st, &WatchEvent::Delete { path: "/home/u/a.txt".into() }, STATE, CONFIG, facts(0, false, None));
    assert_eq!(idx.count(), 1);
    assert!(idx.id_by_path("/home/u/a.txt").is_none());
    let meta = FileMeta { size: 77, modified: Some(5), created: None, accessed: None };
    apply_event(&mut idx, &mut st, &WatchEvent::Modify { path: "/home/u/b.txt".into() }, STATE, CONFIG, facts(0, false, Some(meta)));
    assert_eq!(idx.entries[0].size, 77);
    assert_eq!(idx.entries[0].modified, 5);
    apply_event(
        &mut idx,
        &mut st,
        &WatchEvent::Move { from: "/home/u/b.txt".into(), to: "/home/u/c.txt".into() },
        STATE,
        CONFIG,
        facts(9, false, None),
    );
    assert_eq!(idx.count(), 1);
    assert!(idx.id_by_path("/home/u/b.txt").is_none());
    assert!(idx.id_by_path("/home/u/c.txt").is_some());
    assert_eq!(idx.entries[0].size, 9);
    assert_eq!(st, WatcherStatus::new());
}

#[test]
fn overflow_asks_for_a_new_index() {
    let mut idx = Index::new();
    let mut st = WatcherStatus::new();
    st.is_healthy = true;
    let out = apply_event(&mut idx, &mut st, &WatchEvent::Overflow { path: "/".into() }, STATE, CONFIG, facts(0, false, None));
    assert!(out.reindex);
    assert_eq!(st.watch_overflow_count, 1);
    assert!(!st.is_healthy);
    finish_batch(&mut st, true);
    assert!(!st.is_healthy);
    finish_batch(&mut st, false);
    assert!(st.is_healthy);
}

#[test]
fn watch_results_are_counted() {
    let mut st = WatcherStatus::new();
    record_watch(&mut st, true);
    record_watch(&mut st, false);
    assert_eq!(st.watched_dir_count, 1);
    assert_eq!(st.watch_failure_count, 1);
    assert!(!st.is_healthy);
    st.watch_overflow_count = 3;
    install_results(&mut st, &vec![true, true, false, true]);
    assert_eq!(st.watched_dir_count, 3);
    assert_eq!(st.watch_failure_count, 1);
    assert!(!st.is_healthy);
    assert_eq!(st.watch_overflow_count, 3);
    install_results(&mut st, &vec![true]);
    assert!(st.is_healthy);
}

#[test]
fn events_outside_the_roots_are_passed_over() {
    let roots = vec!["/data".to_string()];
    assert!(concerns_roots(&WatchEvent::Create { path: "/data/a".into(), is_dir: false }, &roots));
    assert!(!concerns_roots(&WatchEvent::Delete { path: "/tmp/a".into() }, &roots));
    assert!(!concerns_roots(&WatchEvent::Modify { path: "/database/a".into() }, &roots));
    assert!(concerns_roots(&WatchEvent::Move { from: "/tmp/a".into(), to: "/data/a".into() }, &roots));
    assert!(!concerns_roots(&WatchEvent::Move { from: "/tmp/a".into(), to: "/tmp/b".into() }, &roots));
    assert!(concerns_roots(&WatchEvent::Overflow { path: String::new() }, &roots));
}
