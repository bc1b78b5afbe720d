use toge_core::fanotify::{
    event_for, parse_fanotify_buffer, DirRecord, FanEvent, FAN_CREATE, FAN_DELETE, FAN_MODIFY,
    FAN_MOVED_FROM, FAN_MOVED_TO, FAN_ONDIR, FAN_Q_OVERFLOW,
};
use toge_core::sys::WatchEvent;

fn header(total_len: u32, version: u8, mask: u64, fd: i32) -> Vec<u8> {
    let mut b = Vec::new();
    b.extend_from_slice(&total_len.to_le_bytes());
    b.push(version);
    b.push(0);
    b.extend_from_slice(&24u16.to_le_bytes());
    b.extend_from_slice(&mask.to_le_bytes());
    b.extend_from_slice(&fd.to_le_bytes());
    b.extend_from_slice(&0i32.to_le_bytes());
    b
}

fn dfid_name(handle: &[u8], name: &[u8]) -> Vec<u8> {
    let len = 4 + 8 + 8 + handle.len() + name.len();
    let mut b = vec![2u8, 0];
    b.extend_from_slice(&(len as u16).to_le_bytes());
    b.extend_from_slice(&[7u8; 8]);
    b.extend_from_slice(&(handle.len() as u32).to_le_bytes());
    b.extend_from_slice(&1i32.to_le_bytes());
    b.extend_from_slice(handle);
    b.extend_from_slice(name);
    b
}

#[test]
fn reads_a_created_entry_with_its_directory_handle_and_name() {
    let info = dfid_name(&[1, 2, 3, 4], b"a.txt\0\0\0");
    let mut buf = header((24 + info.len()) as u32, 3, FAN_CREATE, -1);
    buf.extend_from_slice(&info);
    let events = parse_fanotify_buffer(&buf);
    assert_eq!(
        events,
        vec![FanEvent::Change {
            mask: FAN_CREATE,
            fd: -1,
            dirs: vec![DirRecord {
                handle_bytes: 4,
                handle_type: 1,
                handle: vec![1, 2, 3, 4],
                name: Some("a.txt".to_string()),
            }],
        }]
    );
}

#[test]
fn overflow_other_versions_and_truncated_records() {
    let mut buf = header(24, 3, FAN_Q_OVERFLOW, -1);
    buf.extend_from_slice(&header(24, 2, FAN_CREATE, 5));
    buf.extend_from_slice(&header(24, 3, FAN_MODIFY, 9));
    buf.extend_from_slice(&header(40, 3, FAN_DELETE, 9));
    let events = parse_fanotify_buffer(&buf);
    assert_eq!(
        events,
        vec![
            FanEvent::Overflow { fd: -1 },
            FanEvent::Change { mask: FAN_MODIFY, fd: 9, dirs: vec![] },
        ]
    );
}

#[test]
fn directory_records_without_names_and_bad_lengths() {
    let mut info = dfid_name(&[9, 9], b"");
    info[0] = 3;
    let mut bad = vec![2u8, 0];
    bad.extend_from_slice(&0u16.to_le_bytes());
    let mut buf = header((24 + info.len() + bad.len()) as u32, 3, FAN_DELETE | FAN_ONDIR, -1);
    buf.extend_from_slice(&info);
    buf.extend_from_slice(&bad);
    let events = parse_fanotify_buffer(&buf);
    assert_eq!(
        events,
        vec![FanEvent::Change {
            mask: FAN_DELETE | FAN_ONDIR,
            fd: -1,
            dirs: vec![DirRecord { handle_bytes: 2, handle_type: 1, handle: vec![9, 9], name: None }],
        }]
    );
}

#[test]
fn masks_map_to_watch_events() {
    assert_eq!(
        event_for(FAN_CREATE | FAN_ONDIR, "/a".into()),
        Some(WatchEvent::Create { path: "/a".into(), is_dir: true })
    );
    assert_eq!(
        event_for(FAN_MOVED_TO, "/b".into()),
        Some(WatchEvent::Create { path: "/b".into(), is_dir: false })
    );
    assert_eq!(event_for(FAN_MOVED_FROM, "/c".into()), Some(WatchEvent::Delete { path: "/c".into() }));
    assert_eq!(event_for(FAN_MODIFY, "/d".into()), Some(WatchEvent::Modify { path: "/d".into() }));
    assert_eq!(event_for(0x8, "/e".into()), None);
}
