use toge_core::events::{map_event, ChangeKind};
use toge_core::sys::WatchEvent;

fn p(path: &str, is_dir: bool) -> (String, bool) {
    (path.to_string(), is_dir)
}

#[test]
fn creations_removals_and_changes_give_one_event_per_path() {
    assert_eq!(
        map_event(ChangeKind::Create, vec![p("/a", false), p("/d", true)]),
        vec![
            WatchEvent::Create { path: "/a".into(), is_dir: false },
            WatchEvent::Create { path: "/d".into(), is_dir: true },
        ]
    );
    assert_eq!(
        map_event(ChangeKind::Remove, vec![p("/a", false)]),
        vec![WatchEvent::Delete { path: "/a".into() }]
    );
    assert_eq!(
        map_event(ChangeKind::Modify, vec![p("/a", false), p("/b", false)]),
        vec![WatchEvent::Modify { path: "/a".into() }, WatchEvent::Modify { path: "/b".into() }]
    );
}

#[test]
fn renames_depend_on_the_paths_given() {
    assert_eq!(
        map_event(ChangeKind::RenameBoth, vec![p("/old", false), p("/new", false)]),
        vec![WatchEvent::Move { from: "/old".into(), to: "/new".into() }]
    );
    assert!(map_event(ChangeKind::RenameBoth, vec![p("/old", false)]).is_empty());
    assert_eq!(
        map_event(ChangeKind::RenameFrom, vec![p("/old", false)]),
        vec![WatchEvent::Delete { path: "/old".into() }]
    );
    assert!(map_event(ChangeKind::RenameFrom, vec![p("/a", false), p("/b", false)]).is_empty());
    assert_eq!(
        map_event(ChangeKind::RenameTo, vec![p("/new", true)]),
        vec![WatchEvent::Create { path: "/new".into(), is_dir: true }]
    );
    assert!(map_event(ChangeKind::Other, vec![p("/x", false)]).is_empty());
}
