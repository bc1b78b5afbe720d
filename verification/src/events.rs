//! What a notification from the operating system's change watcher means as watcher events:
//! the kinds of change told apart, and the paths each change names.
use crate::sys::WatchEvent;
use vstd::prelude::*;

verus! {

/// The kinds of change notification told apart: a creation, a removal, a rename seen from
/// both ends, a rename seen from its old name (or from an unknown end), a rename seen from its
/// new name, a change of content or metadata, and anything else.
#[derive(Debug, Clone, Copy, PartialEq, Eq)]
pub enum ChangeKind {
    Create,
    Remove,
    RenameBoth,
    RenameFrom,
    RenameTo,
    Modify,
    Other,
}

/// A watcher event, its paths as characters.
pub enum EventView {
    Create { path: Seq<char>, is_dir: bool },
    Delete { path: Seq<char> },
    Modify { path: Seq<char> },
    Move { from: Seq<char>, to: Seq<char> },
    Overflow { path: Seq<char> },
}

pub open spec fn event_view(e: WatchEvent) -> EventView {
    match e {
        WatchEvent::Create { path, is_dir } => EventView::Create { path: path@, is_dir },
        WatchEvent::Delete { path } => EventView::Delete { path: path@ },
        WatchEvent::Modify { path } => EventView::Modify { path: path@ },
        WatchEvent::Move { from, to } => EventView::Move { from: from@, to: to@ },
        WatchEvent::Overflow { path } => EventView::Overflow { path: path@ },
    }
}

pub open spec fn events_view(v: Seq<WatchEvent>) -> Seq<EventView> {
    Seq::new(v.len(), |i: int| event_view(v[i]))
}

/// A notified path as text, and whether it is a directory.
pub open spec fn paths_view(v: Seq<(String, bool)>) -> Seq<(Seq<char>, bool)> {
    Seq::new(v.len(), |i: int| (v[i].0@, v[i].1))
}

/// The events a notification stands for: one per path for a creation, a removal or a change
/// of content; a move for a rename seen from both ends with two paths; a deletion or a
/// creation for a rename seen from one end with one path; none otherwise.
pub open spec fn notified_events(kind: ChangeKind, p: Seq<(Seq<char>, bool)>) -> Seq<EventView> {
    match kind {
        ChangeKind::Create => Seq::new(p.len(), |i: int| EventView::Create { path: p[i].0, is_dir: p[i].1 }),
        ChangeKind::Remove => Seq::new(p.len(), |i: int| EventView::Delete { path: p[i].0 }),
        ChangeKind::Modify => Seq::new(p.len(), |i: int| EventView::Modify { path: p[i].0 }),
        ChangeKind::RenameBoth => if p.len() >= 2 {
            seq![EventView::Move { from: p[0].0, to: p[1].0 }]
        } else {
            Seq::empty()
        },
        ChangeKind::RenameFrom => if p.len() == 1 {
            seq![EventView::Delete { path: p[0].0 }]
        } else {
            Seq::empty()
        },
        ChangeKind::RenameTo => if p.len() == 1 {
            seq![EventView::Create { path: p[0].0, is_dir: p[0].1 }]
        } else {
            Seq::empty()
        },
        ChangeKind::Other => Seq::empty(),
    }
}

/// The watcher events of a change notification of kind `kind` naming `paths`.
pub fn map_event(kind: ChangeKind, paths: Vec<(String, bool)>) -> (r: Vec<WatchEvent>)
    ensures
        events_view(r@) == notified_events(kind, paths_view(paths@)),
{
    let ghost p = paths_view(paths@);
    let mut out: Vec<WatchEvent> = Vec::new();
    match kind {
        ChangeKind::Create | ChangeKind::Remove | ChangeKind::Modify => {
            let mut i: usize = 0;
            while i < paths.len()
                invariant
                    i <= paths@.len(),
                    p == paths_view(paths@),
                    kind is Create || kind is Remove || kind is Modify,
                    events_view(out@) == notified_events(kind, p).take(i as int),
                decreases paths.len() - i,
            {
                let path = paths[i].0.clone();
                let e = match kind {
                    ChangeKind::Create => WatchEvent::Create { path, is_dir: paths[i].1 },
                    ChangeKind::Remove => WatchEvent::Delete { path },
                    _ => WatchEvent::Modify { path },
                };
                let ghost before = events_view(out@);
                out.push(e);
                assert(events_view(out@) =~= before.push(event_view(e)));
                assert(notified_events(kind, p).take(i + 1) =~= notified_events(kind, p).take(
                    i as int,
                ).push(notified_events(kind, p)[i as int]));
                i += 1;
            }
            assert(notified_events(kind, p).take(paths@.len() as int) =~= notified_events(kind, p));
        },
        ChangeKind::RenameBoth => {
            if paths.len() >= 2 {
                let e = WatchEvent::Move { from: paths[0].0.clone(), to: paths[1].0.clone() };
                out.push(e);
            }
            assert(events_view(out@) =~= notified_events(kind, p));
        },
        ChangeKind::RenameFrom => {
            if paths.len() == 1 {
                out.push(WatchEvent::Delete { path: paths[0].0.clone() });
            }
            assert(events_view(out@) =~= notified_events(kind, p));
        },
        ChangeKind::RenameTo => {
            if paths.len() == 1 {
                out.push(WatchEvent::Create { path: paths[0].0.clone(), is_dir: paths[0].1 });
            }
            assert(events_view(out@) =~= notified_events(kind, p));
        },
        ChangeKind::Other => {
            assert(events_view(out@) =~= notified_events(kind, p));
        },
    }
    out
}

} // verus!
