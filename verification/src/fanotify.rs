//! The event records that the Linux fanotify interface writes when it reports directory
//! entries by file handle: a fixed header (length, version, mask, file descriptor) followed by
//! information records, each naming a directory by file handle and, for some, an entry in it.
//! Reading them, and deciding which event each stands for once its path is known.
use crate::db::{read_u16, read_u32, read_u64, u16_at, u32_at, u64_at};
use crate::inotify::{name_at, name_exec};
use crate::sys::WatchEvent;
use vstd::prelude::*;

verus! {

pub const FAN_MODIFY: u64 = 0x2;
pub const FAN_MOVED_FROM: u64 = 0x40;
pub const FAN_MOVED_TO: u64 = 0x80;
pub const FAN_CREATE: u64 = 0x100;
pub const FAN_DELETE: u64 = 0x200;
pub const FAN_Q_OVERFLOW: u64 = 0x4000;
pub const FAN_ONDIR: u64 = 0x4000_0000;
pub const FAN_NOFD: i32 = -1;
pub const FAN_EVENT_INFO_TYPE_DFID_NAME: u8 = 2;
pub const FAN_EVENT_INFO_TYPE_DFID: u8 = 3;
pub const FANOTIFY_METADATA_VERSION: u8 = 3;
pub const METADATA_LEN: usize = 24;

/// A directory named by file handle, and the entry's name where the record carries one.
#[derive(Debug, Clone, PartialEq, Eq)]
pub struct DirRecord {
    pub handle_bytes: u32,
    pub handle_type: i32,
    pub handle: Vec<u8>,
    pub name: Option<String>,
}

/// An event record: the queue overflowed, or something changed (`mask`), reported by an open
/// file descriptor (`fd`, or `FAN_NOFD`) and the directory records that follow the header.
#[derive(Debug, Clone, PartialEq, Eq)]
pub enum FanEvent {
    Overflow { fd: i32 },
    Change { mask: u64, fd: i32, dirs: Vec<DirRecord> },
}

pub struct DirView {
    pub handle_bytes: u32,
    pub handle_type: i32,
    pub handle: Seq<u8>,
    pub name: Option<Seq<char>>,
}

pub enum FanView {
    Overflow { fd: i32 },
    Change { mask: u64, fd: i32, dirs: Seq<DirView> },
}

impl View for DirRecord {
    type V = DirView;

    open spec fn view(&self) -> DirView {
        DirView {
            handle_bytes: self.handle_bytes,
            handle_type: self.handle_type,
            handle: self.handle@,
            name: match self.name {
                Some(n) => Some(n@),
                None => None,
            },
        }
    }
}

pub open spec fn dirs_view(v: Seq<DirRecord>) -> Seq<DirView> {
    Seq::new(v.len(), |i: int| v[i]@)
}

impl View for FanEvent {
    type V = FanView;

    open spec fn view(&self) -> FanView {
        match self {
            FanEvent::Overflow { fd } => FanView::Overflow { fd: *fd },
            FanEvent::Change { mask, fd, dirs } => FanView::Change {
                mask: *mask,
                fd: *fd,
                dirs: dirs_view(dirs@),
            },
        }
    }
}

pub open spec fn fan_view(v: Seq<FanEvent>) -> Seq<FanView> {
    Seq::new(v.len(), |i: int| v[i]@)
}

pub open spec fn i32_at(b: Seq<u8>, off: int) -> i32 {
    #[verifier::truncate] (u32_at(b, off) as i32)
}

/// The directory records of an event from `off` to `end`, in order; the reading stops at a
/// record that is empty or runs past the event, and at a directory record whose handle does
/// not fit. Records of other kinds are passed over.
pub open spec fn dirs_from(b: Seq<u8>, off: int, end: int) -> Seq<DirView>
    decreases end - off,
{
    if off + 4 > end {
        Seq::empty()
    } else {
        let info_type = b[off];
        let info_len = u16_at(b, off + 2) as int;
        if info_len == 0 || off + info_len > end {
            Seq::empty()
        } else if info_type == FAN_EVENT_INFO_TYPE_DFID_NAME || info_type == FAN_EVENT_INFO_TYPE_DFID {
            let fh = off + 12;
            if fh + 8 > end {
                Seq::empty()
            } else {
                let hb = u32_at(b, fh);
                let data = fh + 8;
                if data + hb > end {
                    Seq::empty()
                } else {
                    let name_start = data + hb;
                    let name = if info_type == FAN_EVENT_INFO_TYPE_DFID_NAME && name_start < off
                        + info_len {
                        Some(name_at(b, name_start, off + info_len - name_start))
                    } else {
                        None
                    };
                    seq![
                        DirView {
                            handle_bytes: hb,
                            handle_type: i32_at(b, fh + 4),
                            handle: b.subrange(data, data + hb),
                            name,
                        },
                    ] + dirs_from(b, off + info_len, end)
                }
            }
        } else {
            dirs_from(b, off + info_len, end)
        }
    }
}

/// The event records of `b` from `off` on, in order; the reading stops at a record shorter than
/// its header or running past the data, and passes over records of another version.
pub open spec fn fan_events_from(b: Seq<u8>, off: int) -> Seq<FanView>
    decreases b.len() - off,
{
    if off < 0 || off + 24 > b.len() {
        Seq::empty()
    } else {
        let len = u32_at(b, off) as int;
        if len < 24 || off + len > b.len() {
            Seq::empty()
        } else if b[off + 4] != FANOTIFY_METADATA_VERSION {
            fan_events_from(b, off + len)
        } else {
            let mask = u64_at(b, off + 8);
            let fd = i32_at(b, off + 16);
            if mask & FAN_Q_OVERFLOW != 0 {
                seq![FanView::Overflow { fd }] + fan_events_from(b, off + len)
            } else {
                seq![FanView::Change { mask, fd, dirs: dirs_from(b, off + 24, off + len) }]
                    + fan_events_from(b, off + len)
            }
        }
    }
}

fn read_i32(b: &[u8], off: usize) -> (r: i32)
    requires
        off + 4 <= b@.len(),
    ensures
        r == i32_at(b@, off as int),
{
    #[verifier::truncate] (read_u32(b, off) as i32)
}

/// The directory records of the event whose records run from `off` to `end`.
fn dir_records(b: &[u8], off: usize, end: usize) -> (r: Vec<DirRecord>)
    requires
        off <= end <= b@.len(),
    ensures
        dirs_view(r@) == dirs_from(b@, off as int, end as int),
{
    let mut out: Vec<DirRecord> = Vec::new();
    let mut o = off;
    let mut stop = false;
    assert(dirs_view(out@) =~= Seq::<DirView>::empty());
    while !stop && o <= end && end - o >= 4
        invariant
            off <= o,
            end <= b@.len(),
            stop ==> dirs_from(b@, off as int, end as int) == dirs_view(out@),
            !stop ==> dirs_from(b@, off as int, end as int) == dirs_view(out@) + dirs_from(
                b@,
                o as int,
                end as int,
            ),
        decreases (end + 1 - o) * 2 + if stop {
            0int
        } else {
            1int
        },
    {
        let ghost before = dirs_view(out@);
        let info_type = b[o];
        let info_len = read_u16(b, o + 2) as usize;
        if info_len == 0 || info_len > end - o {
            stop = true;
            assert(before + Seq::<DirView>::empty() =~= before);
        } else if info_type == FAN_EVENT_INFO_TYPE_DFID_NAME || info_type == FAN_EVENT_INFO_TYPE_DFID {
            if end - o < 20 {
                stop = true;
                assert(before + Seq::<DirView>::empty() =~= before);
            } else {
                let fh = o + 12;
                let hb = read_u32(b, fh);
                let ht = read_i32(b, fh + 4);
                let data = fh + 8;
                if hb as usize > end - data {
                    stop = true;
                    assert(before + Seq::<DirView>::empty() =~= before);
                } else {
                    let name_start = data + hb as usize;
                    let name = if info_type == FAN_EVENT_INFO_TYPE_DFID_NAME && name_start < o
                        + info_len {
                        Some(name_exec(b, name_start, o + info_len - name_start))
                    } else {
                        None
                    };
                    let handle = vstd::slice::slice_to_vec(
                        vstd::slice::slice_subrange(b, data, name_start),
                    );
                    let rec = DirRecord { handle_bytes: hb, handle_type: ht, handle, name };
                    out.push(rec);
                    assert(dirs_view(out@) =~= before + seq![rec@]);
                    o = o + info_len;
                }
            }
        } else {
            o = o + info_len;
        }
    }
    if !stop {
        assert(dirs_from(b@, o as int, end as int) =~= Seq::<DirView>::empty());
        assert(dirs_view(out@) + Seq::<DirView>::empty() =~= dirs_view(out@));
    }
    out
}

/// Reads a buffer of fanotify event records.
pub fn parse_fanotify_buffer(buf: &[u8]) -> (r: Vec<FanEvent>)
    ensures
        fan_view(r@) == fan_events_from(buf@, 0),
{
    let n = buf.len();
    let mut events: Vec<FanEvent> = Vec::new();
    let mut offset: usize = 0;
    let mut stop = false;
    assert(fan_view(events@) =~= Seq::<FanView>::empty());
    while !stop && offset <= n && n - offset >= 24
        invariant
            n == buf@.len(),
            stop ==> fan_events_from(buf@, 0) == fan_view(events@),
            !stop ==> fan_events_from(buf@, 0) == fan_view(events@) + fan_events_from(
                buf@,
                offset as int,
            ),
        decreases (n + 1 - offset) * 2 + if stop {
            0int
        } else {
            1int
        },
    {
        let ghost before = fan_view(events@);
        let len = read_u32(buf, offset) as usize;
        if len < 24 || len > n - offset {
            stop = true;
            assert(before + Seq::<FanView>::empty() =~= before);
        } else if buf[offset + 4] != FANOTIFY_METADATA_VERSION {
            offset = offset + len;
        } else {
            let mask = read_u64(buf, offset + 8);
            let fd = read_i32(buf, offset + 16);
            if mask & FAN_Q_OVERFLOW != 0 {
                let e = FanEvent::Overflow { fd };
                events.push(e);
                assert(fan_view(events@) =~= before + seq![e@]);
            } else {
                let dirs = dir_records(buf, offset + 24, offset + len);
                let e = FanEvent::Change { mask, fd, dirs };
                events.push(e);
                assert(fan_view(events@) =~= before + seq![e@]);
            }
            offset = offset + len;
        }
    }
    if !stop {
        assert(fan_events_from(buf@, offset as int) =~= Seq::<FanView>::empty());
        assert(fan_view(events@) + Seq::<FanView>::empty() =~= fan_view(events@));
    }
    events
}

/// The event a change stands for once its path is known: a creation or a move into place, a
/// deletion or a move away, a modification; other changes stand for none.
pub open spec fn change_event(mask: u64, path: Seq<char>) -> Option<(u8, Seq<char>, bool)> {
    if mask & FAN_CREATE != 0 || mask & FAN_MOVED_TO != 0 {
        Some((0u8, path, mask & FAN_ONDIR != 0))
    } else if mask & FAN_DELETE != 0 || mask & FAN_MOVED_FROM != 0 {
        Some((1u8, path, false))
    } else if mask & FAN_MODIFY != 0 {
        Some((2u8, path, false))
    } else {
        None
    }
}

/// The watcher event for a change with mask `mask` at `path`.
pub fn event_for(mask: u64, path: String) -> (r: Option<WatchEvent>)
    ensures
        match change_event(mask, path@) {
            None => r is None,
            Some((kind, p, is_dir)) => match r {
                Some(WatchEvent::Create { path: q, is_dir: d }) => kind == 0 && q@ == p && d == is_dir,
                Some(WatchEvent::Delete { path: q }) => kind == 1 && q@ == p,
                Some(WatchEvent::Modify { path: q }) => kind == 2 && q@ == p,
                _ => false,
            },
        },
{
    if mask & FAN_CREATE != 0 || mask & FAN_MOVED_TO != 0 {
        Some(WatchEvent::Create { path, is_dir: mask & FAN_ONDIR != 0 })
    } else if mask & FAN_DELETE != 0 || mask & FAN_MOVED_FROM != 0 {
        Some(WatchEvent::Delete { path })
    } else if mask & FAN_MODIFY != 0 {
        Some(WatchEvent::Modify { path })
    } else {
        None
    }
}

} // verus!
