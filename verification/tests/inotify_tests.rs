use std::collections::HashMap;
use toge_core::inotify::{parse_buffer, resolve_full_path, ParsedWatchEvent};

fn record(buf: &mut Vec<u8>, wd: i32, mask: u32, cookie: u32, name: &[u8]) {
    buf.extend_from_slice(&(wd as u32).to_le_bytes());
    buf.extend_from_slice(&mask.to_le_bytes());
    buf.extend_from_slice(&cookie.to_le_bytes());
    buf.extend_from_slice(&(name.len() as u32).to_le_bytes());
    buf.extend_from_slice(name);
}

#[test]
fn inotify_parse_create_event() {
    // Synthetic IN_CREATE event for "foo.txt" with a 4-byte aligned name.
    let name = b"foo.txt\0\0";
    let len = 16 + name.len();
    let mut buf = Vec::with_capacity(len);
    buf.extend_from_slice(&0u32.to_le_bytes()); // wd
    buf.extend_from_slice(&0x00000100u32.to_le_bytes()); // mask = IN_CREATE
    buf.extend_from_slice(&0u32.to_le_bytes()); // cookie
    buf.extend_from_slice(&(name.len() as u32).to_le_bytes()); // len
    buf.extend_from_slice(name);

    let events = parse_buffer(&buf);
    assert_eq!(events.len(), 1);
    assert_eq!(
        events[0],
        ParsedWatchEvent::Create {
            wd: 0,
            name: "foo.txt".into(),
            is_dir: false,
        }
    );
}

#[test]
fn inotify_parse_delete_event() {
    let name = b"old.rs\0\0";
    let len = 16 + name.len();
    let mut buf = Vec::with_capacity(len);
    buf.extend_from_slice(&0u32.to_le_bytes());
    buf.extend_from_slice(&0x00000200u32.to_le_bytes()); // mask = IN_DELETE
    buf.extend_from_slice(&0u32.to_le_bytes());
    buf.extend_from_slice(&(name.len() as u32).to_le_bytes());
    buf.extend_from_slice(name);

    let events = parse_buffer(&buf);
    assert_eq!(events.len(), 1);
    assert_eq!(
        events[0],
        ParsedWatchEvent::Delete {
            wd: 0,
            name: "old.rs".into()
        }
    );
}

#[test]
fn inotify_resolves_duplicate_basenames_by_watch_descriptor() {
    let watches = HashMap::from([(7, "/tmp/a".to_string()), (9, "/tmp/b".to_string())]);
    assert_eq!(resolve_full_path(&watches, 9, "shared.txt"), "/tmp/b/shared.txt");
    assert_eq!(resolve_full_path(&watches, 7, "shared.txt"), "/tmp/a/shared.txt");
    assert_eq!(resolve_full_path(&watches, 3, "x"), "x");
    assert_eq!(resolve_full_path(&watches, 7, "/abs"), "/abs");
    assert_eq!(resolve_full_path(&watches, 7, ""), "");
}

#[test]
fn renames_pair_by_cookie_and_overflow_is_reported() {
    let mut buf = Vec::new();
    record(&mut buf, 1, 0x40, 5, b"a.txt\0\0\0");
    record(&mut buf, 2, 0x80, 5, b"b.txt\0\0\0");
    record(&mut buf, 1, 0x40, 6, b"c\0\0\0");
    record(&mut buf, 1, 0x80, 7, b"d\0\0\0");
    record(&mut buf, -1, 0x4000, 0, b"");
    record(&mut buf, 3, 0x100 | 0x4000_0000, 0, b"dir\0");
    record(&mut buf, 3, 0x2, 0, b"f\0\0\0");
    let events = parse_buffer(&buf);
    assert_eq!(
        events,
        vec![
            ParsedWatchEvent::Move {
                from_wd: 1,
                from_name: "a.txt".into(),
                to_wd: 2,
                to_name: "b.txt".into()
            },
            ParsedWatchEvent::Overflow,
            ParsedWatchEvent::Create { wd: 3, name: "dir".into(), is_dir: true },
            ParsedWatchEvent::Modify { wd: 3, name: "f".into() },
        ]
    );
}

#[test]
fn truncated_records_end_the_reading() {
    let mut buf = Vec::new();
    record(&mut buf, 1, 0x100, 0, b"x\0\0\0");
    buf.extend_from_slice(&[1, 2, 3]);
    assert_eq!(parse_buffer(&buf).len(), 1);
    let mut cut = Vec::new();
    record(&mut cut, 1, 0x200, 0, b"long-name");
    cut.truncate(20);
    assert_eq!(parse_buffer(&cut), vec![ParsedWatchEvent::Delete { wd: 1, name: String::new() }]);
}
