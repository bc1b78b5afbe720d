use toge_core::sys::{FakeWatcher, FsWatcher, WatchEvent};

#[test]
fn tests_fake_watcher_records_watches() {
    let mut w = FakeWatcher::new();
    w.watch("/tmp").unwrap();
    w.watch("/home").unwrap();
    assert_eq!(w.watches, vec!["/tmp", "/home"]);
}

#[test]
fn tests_fake_watcher_returns_pending_events() {
    let mut w = FakeWatcher::new();
    w.push(WatchEvent::Create {
        path: "/tmp/x".into(),
        is_dir: false,
    });
    let events = w.poll_events().unwrap();
    assert_eq!(events.len(), 1);
    assert!(w.poll_events().unwrap().is_empty());
}

#[test]
fn fake_watcher_unwatch_removes_watch() {
    let mut w = FakeWatcher::new();
    w.watch("/tmp/a").unwrap();
    w.watch("/tmp/b").unwrap();
    assert_eq!(w.watches, vec!["/tmp/a", "/tmp/b"]);

    w.unwatch("/tmp/a").unwrap();
    assert_eq!(w.watches, vec!["/tmp/b"]);
}

#[test]
fn fake_watcher_unwatch_is_idempotent() {
    let mut w = FakeWatcher::new();
    w.watch("/tmp/a").unwrap();
    w.unwatch("/tmp/nonexistent").unwrap();
    assert_eq!(w.watches, vec!["/tmp/a"]);
}

#[test]
fn simulate_delete_event_unwatches_directory() {
    let mut watcher = FakeWatcher::new();
    let mut watched: Vec<String> = Vec::new();

    watcher.watch("/project/src").unwrap();
    watched.push("/project/src".to_string());
    watcher.watch("/project/lib").unwrap();
    watched.push("/project/lib".to_string());
    assert_eq!(watcher.watches.len(), 2);

    let event = WatchEvent::Delete {
        path: "/project/src".into(),
    };

    if let WatchEvent::Delete { path } = &event {
        watched.retain(|w| w != path);
        let _ = watcher.unwatch(path);
    }

    assert_eq!(watcher.watches, vec!["/project/lib"]);
    assert_eq!(watched, vec!["/project/lib"]);
}

#[test]
fn simulate_move_event_unwatches_source() {
    let mut watcher = FakeWatcher::new();
    let mut watched: Vec<String> = Vec::new();

    watcher.watch("/project/old_dir").unwrap();
    watched.push("/project/old_dir".to_string());
    assert_eq!(watcher.watches, vec!["/project/old_dir"]);

    let event = WatchEvent::Move {
        from: "/project/old_dir".into(),
        to: "/project/new_dir".into(),
    };

    if let WatchEvent::Move { from, .. } = &event {
        watched.retain(|w| w != from);
        let _ = watcher.unwatch(from);
    }

    assert_eq!(watcher.watches, Vec::<String>::new());
    assert_eq!(watched, Vec::<String>::new());
}

#[test]
fn simulate_overflow_reindex_does_not_accumulate_watches() {
    let mut watcher = FakeWatcher::new();

    let dirs = vec![
        "/project/src".to_string(),
        "/project/lib".to_string(),
        "/project/test".to_string(),
    ];

    for dir in &dirs {
        watcher.watch(dir).unwrap();
    }
    assert_eq!(watcher.watches.len(), 3);

    let new_dirs = vec![
        "/project/src".to_string(),
        "/project/lib".to_string(),
        "/project/test".to_string(),
        "/project/docs".to_string(),
    ];

    for dir in &dirs {
        let _ = watcher.unwatch(dir);
    }
    assert_eq!(watcher.watches.len(), 0);

    for dir in &new_dirs {
        watcher.watch(dir).unwrap();
    }
    assert_eq!(watcher.watches.len(), 4);

    assert!(watcher.watches.contains(&"/project/src".to_string()));
    assert!(watcher.watches.contains(&"/project/docs".to_string()));
}

#[test]
fn simulate_creating_nested_directory_watches_it() {
    let mut watcher = FakeWatcher::new();
    let mut watched: Vec<String> = Vec::new();

    watcher.watch("/project").unwrap();
    watched.push("/project".to_string());

    let event = WatchEvent::Create {
        path: "/project/src".into(),
        is_dir: true,
    };

    if let WatchEvent::Create { path, is_dir: true } = &event {
        let _ = watcher.watch(path);
        watched.push(path.clone());
    }

    assert_eq!(watcher.watches.len(), 2);
    assert!(watcher.watches.contains(&"/project".to_string()));
    assert!(watcher.watches.contains(&"/project/src".to_string()));
}

#[test]
fn simulate_file_create_does_not_add_watch() {
    let mut watcher = FakeWatcher::new();
    let mut watched: Vec<String> = Vec::new();

    watcher.watch("/project").unwrap();
    watched.push("/project".to_string());

    let event = WatchEvent::Create {
        path: "/project/file.txt".into(),
        is_dir: false,
    };

    if let WatchEvent::Create { path, is_dir: true } = &event {
        let _ = watcher.watch(path);
        watched.push(path.clone());
    }

    assert_eq!(watcher.watches.len(), 1);
    assert_eq!(watched.len(), 1);
}


#[test]
fn poll_hands_out_events_in_order_once() {
    let mut w = FakeWatcher::new();
    w.push(WatchEvent::Modify { path: "/a".into() });
    w.push(WatchEvent::Move { from: "/a".into(), to: "/b".into() });
    let events = w.poll_events().unwrap();
    assert_eq!(
        events,
        vec![
            WatchEvent::Modify { path: "/a".into() },
            WatchEvent::Move { from: "/a".into(), to: "/b".into() }
        ]
    );
    assert!(w.poll_events().unwrap().is_empty());
}

#[test]
fn unwatch_removes_every_copy_and_keeps_order() {
    let mut w = FakeWatcher::new();
    w.watch("/a").unwrap();
    w.watch("/b").unwrap();
    w.watch("/a").unwrap();
    w.watch("/c").unwrap();
    w.unwatch("/a").unwrap();
    assert_eq!(w.watches, vec!["/b", "/c"]);
}

#[test]
fn fake_watcher_records_watches() {
    let mut w = FakeWatcher::new();
    w.watch("/tmp").unwrap();
    w.watch("/home").unwrap();
    assert_eq!(w.watches, vec!["/tmp", "/home"]);
}

#[test]
fn fake_watcher_returns_pending_events() {
    let mut w = FakeWatcher::new();
    w.push(WatchEvent::Create {
        path: "/tmp/x".into(),
        is_dir: false,
    });
    let events = w.poll_events().unwrap();
    assert_eq!(events.len(), 1);
    assert!(w.poll_events().unwrap().is_empty());
}
