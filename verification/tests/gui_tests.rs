use toge_core::gui::{format_watch_event, self_test_result, AppState};
use toge_core::sys::WatchEvent;

#[test]
fn query_ids_count_up_from_one() {
    let mut st = AppState::new("/run/toged.sock".into(), "/home/a/.config/toge/config.toml".into());
    assert_eq!(st.socket_path(), "/run/toged.sock");
    assert_eq!(st.next_query_id(), 1);
    assert_eq!(st.next_query_id(), 2);
    st.query_counter = u64::MAX;
    assert_eq!(st.next_query_id(), u64::MAX);
    assert_eq!(st.next_query_id(), 0);
}

#[test]
fn settings_fall_back_to_defaults() {
    let st = AppState::new("s".into(), "c".into());
    let home = Some("/home/a".to_string());
    let missing = st.load_config(None, home.clone());
    assert_eq!(missing.roots, vec!["/home/a".to_string()]);
    let broken = st.load_config(Some("[index]\nsize = maybe\n"), home.clone());
    assert_eq!(broken, missing);
    let set = st.load_config(Some("[polling]\ninterval_secs = 60\n"), home);
    assert_eq!(set.poll_interval_secs, 60);
}

#[test]
fn watch_events_as_log_lines() {
    assert_eq!(
        format_watch_event(&WatchEvent::Create { path: "/t/d".into(), is_dir: true }),
        "create /t/d (dir)"
    );
    assert_eq!(format_watch_event(&WatchEvent::Delete { path: "/t/a".into() }), "delete /t/a");
    assert_eq!(format_watch_event(&WatchEvent::Modify { path: "/t/a".into() }), "modify /t/a");
    assert_eq!(
        format_watch_event(&WatchEvent::Move { from: "/a".into(), to: "/b".into() }),
        "move /a -> /b"
    );
    assert_eq!(format_watch_event(&WatchEvent::Overflow { path: "".into() }), "overflow ");
}

#[test]
fn self_test_passes_when_create_and_delete_are_seen() {
    let f = "/tmp/x/watcher-self-test.mkv";
    let events = vec![
        WatchEvent::Create { path: f.into(), is_dir: false },
        WatchEvent::Modify { path: f.into() },
        WatchEvent::Delete { path: f.into() },
    ];
    let r = self_test_result(&events, f);
    assert!(r.passed);
    assert_eq!(r.summary, "Watcher self-test passed: create and delete events observed");
    assert_eq!(r.events.len(), 3);
    assert_eq!(r.events[0], format!("create {}", f));
}

#[test]
fn self_test_fails_without_the_delete() {
    let f = "/tmp/x/watcher-self-test.mkv";
    let events = vec![
        WatchEvent::Create { path: f.into(), is_dir: false },
        WatchEvent::Delete { path: "/tmp/x/other".into() },
    ];
    let r = self_test_result(&events, f);
    assert!(!r.passed);
    assert_eq!(r.summary, "Watcher self-test failed: create seen = true, delete seen = false");
}

#[test]
fn the_kth_query_gets_number_k() {
    let mut st = AppState::new("s".into(), "c".into());
    for k in 1..=1000u64 {
        assert_eq!(st.next_query_id(), k);
    }
}
