//! The event records that the Linux inotify interface writes: each is a watch descriptor, an
//! event mask, a cookie that pairs the two halves of a rename, and a name of `len` bytes padded
//! with zero bytes. Reading them into events, and turning a watch descriptor and a name into a
//! full path.
use crate::db::{read_u32, u32_at};
use std::collections::HashMap;
use vstd::prelude::*;

verus! {

broadcast use vstd::std_specs::hash::group_hash_axioms;

pub const IN_CREATE: u32 = 0x100;
pub const IN_DELETE: u32 = 0x200;
pub const IN_MODIFY: u32 = 0x2;
pub const IN_MOVED_FROM: u32 = 0x40;
pub const IN_MOVED_TO: u32 = 0x80;
pub const IN_ISDIR: u32 = 0x4000_0000;
pub const IN_Q_OVERFLOW: u32 = 0x4000;

/// An event as inotify reports it: names relative to the watched directory `wd`.
#[derive(Debug, Clone, PartialEq, Eq)]
pub enum ParsedWatchEvent {
    Create { wd: i32, name: String, is_dir: bool },
    Delete { wd: i32, name: String },
    Modify { wd: i32, name: String },
    Move { from_wd: i32, from_name: String, to_wd: i32, to_name: String },
    Overflow,
}

pub enum ParsedView {
    Create { wd: i32, name: Seq<char>, is_dir: bool },
    Delete { wd: i32, name: Seq<char> },
    Modify { wd: i32, name: Seq<char> },
    Move { from_wd: i32, from_name: Seq<char>, to_wd: i32, to_name: Seq<char> },
    Overflow,
}

impl View for ParsedWatchEvent {
    type V = ParsedView;

    open spec fn view(&self) -> ParsedView {
        match self {
            ParsedWatchEvent::Create { wd, name, is_dir } => ParsedView::Create {
                wd: *wd,
                name: name@,
                is_dir: *is_dir,
            },
            ParsedWatchEvent::Delete { wd, name } => ParsedView::Delete { wd: *wd, name: name@ },
            ParsedWatchEvent::Modify { wd, name } => ParsedView::Modify { wd: *wd, name: name@ },
            ParsedWatchEvent::Move { from_wd, from_name, to_wd, to_name } => ParsedView::Move {
                from_wd: *from_wd,
                from_name: from_name@,
                to_wd: *to_wd,
                to_name: to_name@,
            },
            ParsedWatchEvent::Overflow => ParsedView::Overflow,
        }
    }
}

pub open spec fn events_view(v: Seq<ParsedWatchEvent>) -> Seq<ParsedView> {
    Seq::new(v.len(), |i: int| v[i]@)
}

/// What `String::from_utf8_lossy` makes of `b`.
pub uninterp spec fn lossy_text(b: Seq<u8>) -> Seq<char>;

/// `String::from_utf8_lossy`: the text of `b`, with each invalid sequence replaced; bytes that
/// are valid UTF-8 are read as they are.
#[verifier::external_body]
fn from_utf8_lossy(b: &[u8]) -> (r: String)
    ensures
        r@ == lossy_text(b@),
        vstd::utf8::valid_utf8(b@) ==> r@ == vstd::utf8::decode_utf8(b@),
{
    String::from_utf8_lossy(b).into_owned()
}

/// The bytes of `b` up to its first zero byte.
pub open spec fn before_zero(b: Seq<u8>) -> Seq<u8>
    decreases b.len(),
{
    if b.len() == 0 {
        b
    } else if b[0] == 0 {
        Seq::empty()
    } else {
        seq![b[0]] + before_zero(b.drop_first())
    }
}

/// The name of a record whose name field starts at `o` and is `len` bytes long; empty where the
/// field is empty or runs past the buffer.
pub open spec fn name_at(b: Seq<u8>, o: int, len: int) -> Seq<char> {
    if len > 0 && o + len <= b.len() {
        lossy_text(before_zero(b.subrange(o, o + len)))
    } else {
        Seq::empty()
    }
}

/// The events of the records from `off` on; `pending` is the first half of a rename that waits
/// for its second half.
pub open spec fn events_from(b: Seq<u8>, off: int, pending: Option<(u32, i32, Seq<char>)>) -> Seq<
    ParsedView,
>
    decreases b.len() - off,
{
    if off < 0 || off + 16 > b.len() {
        Seq::empty()
    } else {
        let wd = #[verifier::truncate] (u32_at(b, off) as i32);
        let mask = u32_at(b, off + 4);
        let cookie = u32_at(b, off + 8);
        let len = u32_at(b, off + 12) as int;
        let o = off + 16;
        if mask & IN_Q_OVERFLOW != 0 {
            seq![ParsedView::Overflow] + events_from(b, o, pending)
        } else {
            let name = name_at(b, o, len);
            let next = if o + len > b.len() {
                b.len() as int
            } else {
                o + len
            };
            let is_dir = mask & IN_ISDIR != 0;
            if mask & IN_CREATE != 0 {
                seq![ParsedView::Create { wd, name, is_dir }] + events_from(b, next, pending)
            } else if mask & IN_DELETE != 0 {
                seq![ParsedView::Delete { wd, name }] + events_from(b, next, pending)
            } else if mask & IN_MODIFY != 0 {
                seq![ParsedView::Modify { wd, name }] + events_from(b, next, pending)
            } else if mask & IN_MOVED_FROM != 0 {
                events_from(b, next, Some((cookie, wd, name)))
            } else if mask & IN_MOVED_TO != 0 {
                match pending {
                    Some((c, from_wd, from_name)) => (if c == cookie && from_name.len() > 0 {
                        seq![
                            ParsedView::Move { from_wd, from_name, to_wd: wd, to_name: name },
                        ]
                    } else {
                        Seq::empty()
                    }) + events_from(b, next, None),
                    None => events_from(b, next, None),
                }
            } else {
                events_from(b, next, pending)
            }
        }
    }
}

pub open spec fn pending_view(m: Option<(u32, i32, String)>) -> Option<(u32, i32, Seq<char>)> {
    match m {
        Some((c, w, s)) => Some((c, w, s@)),
        None => None,
    }
}

pub(crate) fn name_exec(b: &[u8], o: usize, len: usize) -> (r: String)
    requires
        o <= b@.len(),
    ensures
        r@ == name_at(b@, o as int, len as int),
{
    let n = b.len();
    if len > 0 && len <= n - o {
        let field = vstd::slice::slice_subrange(b, o, o + len);
        let mut k: usize = 0;
        assert(field@.skip(0) =~= field@);
        while k < len && field[k] != 0
            invariant
                k <= len == field@.len(),
                before_zero(field@) == field@.take(k as int) + before_zero(field@.skip(k as int)),
            decreases len - k,
        {
            assert(field@.skip(k as int).drop_first() =~= field@.skip(k + 1));
            assert(field@.take(k + 1) =~= field@.take(k as int) + seq![field@[k as int]]);
            k += 1;
        }
        if k < len {
            assert(before_zero(field@.skip(k as int)) =~= Seq::<u8>::empty());
        } else {
            assert(field@.skip(k as int) =~= Seq::<u8>::empty());
        }
        assert(field@.take(k as int) =~= before_zero(field@));
        let cut = vstd::slice::slice_subrange(field, 0, k);
        assert(cut@ =~= field@.take(k as int));
        from_utf8_lossy(cut)
    } else {
        String::new()
    }
}

/// Reads a buffer of inotify records into events; a record cut off at the end of the buffer
/// ends the reading.
pub fn parse_buffer(buf: &[u8]) -> (r: Vec<ParsedWatchEvent>)
    ensures
        events_view(r@) == events_from(buf@, 0, None),
{
    let n = buf.len();
    let mut events: Vec<ParsedWatchEvent> = Vec::new();
    let mut offset: usize = 0;
    let mut move_from: Option<(u32, i32, String)> = None;
    while offset <= n && n - offset >= 16
        invariant
            n == buf@.len(),
            events_from(buf@, 0, None) == events_view(events@) + events_from(
                buf@,
                offset as int,
                pending_view(move_from),
            ),
        decreases n - offset,
    {
        let ghost pend = pending_view(move_from);
        let ghost ev0 = events_view(events@);
        let wd = #[verifier::truncate] (read_u32(buf, offset) as i32);
        let mask = read_u32(buf, offset + 4);
        let cookie = read_u32(buf, offset + 8);
        let len = read_u32(buf, offset + 12) as usize;
        offset = offset + 16;
        if mask & IN_Q_OVERFLOW != 0 {
            events.push(ParsedWatchEvent::Overflow);
            assert(events_view(events@) =~= ev0 + seq![ParsedView::Overflow]);
            continue;
        }
        let name = name_exec(buf, offset, len);
        let is_dir = mask & IN_ISDIR != 0;
        let next = if len > n - offset {
            n
        } else {
            offset + len
        };
        if mask & IN_CREATE != 0 {
            let x = ParsedWatchEvent::Create { wd, name, is_dir };
            events.push(x);
            assert(events_view(events@) =~= ev0 + seq![x@]);
        } else if mask & IN_DELETE != 0 {
            let x = ParsedWatchEvent::Delete { wd, name };
            events.push(x);
            assert(events_view(events@) =~= ev0 + seq![x@]);
        } else if mask & IN_MODIFY != 0 {
            let x = ParsedWatchEvent::Modify { wd, name };
            events.push(x);
            assert(events_view(events@) =~= ev0 + seq![x@]);
        } else if mask & IN_MOVED_FROM != 0 {
            move_from = Some((cookie, wd, name));
        } else if mask & IN_MOVED_TO != 0 {
            let taken = move_from;
            move_from = None;
            match taken {
                Some((from_cookie, from_wd, from_name)) => {
                    if from_cookie == cookie && from_name.as_str().unicode_len() > 0 {
                        let x = ParsedWatchEvent::Move { from_wd, from_name, to_wd: wd, to_name: name };
                        events.push(x);
                        assert(events_view(events@) =~= ev0 + seq![x@]);
                    } else {
                        assert(ev0 + Seq::<ParsedView>::empty() =~= ev0);
                    }
                },
                None => {},
            }
        }
        offset = next;
    }
    proof {
        assert(events_from(buf@, offset as int, pending_view(move_from)) == Seq::<ParsedView>::empty());
    }
    assert(events_view(events@) =~= events_view(events@) + Seq::<ParsedView>::empty());
    events
}

/// The full path of `name` in the directory watched as `wd`: a name that is empty stays empty,
/// an absolute name stays as it is, and a descriptor that is not known leaves the name alone.
pub open spec fn full_path_spec(watches: Map<i32, String>, wd: i32, name: Seq<char>) -> Seq<char> {
    if name.len() == 0 {
        Seq::empty()
    } else if name[0] == '/' {
        name
    } else if watches.contains_key(wd) {
        watches[wd]@ + "/"@ + name
    } else {
        name
    }
}

pub fn resolve_full_path(watches: &HashMap<i32, String>, wd: i32, name: &str) -> (r: String)
    ensures
        r@ == full_path_spec(watches@, wd, name@),
{
    let c = crate::text::chars_of(name);
    if c.len() == 0 {
        return String::new();
    }
    if c[0] == '/' {
        return name.to_owned();
    }
    match watches.get(&wd) {
        Some(dir) => {
            let mut s = dir.clone();
            crate::text::push_str(&mut s, "/");
            crate::text::push_str(&mut s, name);
            s
        },
        None => name.to_owned(),
    }
}

} // verus!
