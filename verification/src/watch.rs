//! How the daemon keeps its index current from file system events: which events it leaves
//! alone, what each of the others does to the index, and the watcher's health counters.
use crate::index::{
    ext_chars, fnv1a_spec, insertable, insertable_path, is_new_entry, path_hit,
    path_map_after_remove, swap_removed, with_meta, FileMeta, Index,
};
use crate::sys::WatchEvent;
use crate::text::chars_of;
use crate::walker::{is_within_roots, strings_view, within_roots};
use vstd::utf8::encode_utf8;
use vstd::prelude::*;

verus! {

/// The watcher's counters as the daemon reports them.
#[derive(Debug, Clone, Copy, PartialEq, Eq)]
pub struct WatcherStatus {
    pub is_healthy: bool,
    pub watched_dir_count: usize,
    pub watch_failure_count: usize,
    pub watch_overflow_count: u64,
}

impl WatcherStatus {
    pub fn new() -> (r: WatcherStatus)
        ensures
            r == (WatcherStatus {
                is_healthy: false,
                watched_dir_count: 0,
                watch_failure_count: 0,
                watch_overflow_count: 0,
            }),
    {
        WatcherStatus {
            is_healthy: false,
            watched_dir_count: 0,
            watch_failure_count: 0,
            watch_overflow_count: 0,
        }
    }
}

/// A path under the daemon's own state or settings directory.
pub open spec fn own_path(path: Seq<char>, state_dir: Seq<char>, config_dir: Seq<char>) -> bool {
    state_dir.is_prefix_of(path) || config_dir.is_prefix_of(path)
}

fn starts_with(s: &str, prefix: &str) -> (r: bool)
    ensures
        r == prefix@.is_prefix_of(s@),
{
    let a = chars_of(s);
    let b = chars_of(prefix);
    if b.len() > a.len() {
        return false;
    }
    let mut i: usize = 0;
    while i < b.len()
        invariant
            i <= b@.len() <= a@.len(),
            a@ == s@,
            b@ == prefix@,
            forall|j: int| 0 <= j < i ==> a@[j] == b@[j],
        decreases b.len() - i,
    {
        if a[i] != b[i] {
            return false;
        }
        i += 1;
    }
    true
}

/// Whether `path` lies under the state or the settings directory, whose events the daemon
/// leaves alone (it writes there itself).
pub fn is_own_path(path: &str, state_dir: &str, config_dir: &str) -> (r: bool)
    ensures
        r == own_path(path@, state_dir@, config_dir@),
{
    starts_with(path, state_dir) || starts_with(path, config_dir)
}

/// What the file system showed of an event's paths when the event was handled: the size of
/// the created or moved-to file (0 where it could not be read), the clock, whether a move's
/// destination is a directory, and the metadata read for a modified or moved-to path.
#[derive(Debug, Clone, Copy, PartialEq, Eq)]
pub struct EventFacts {
    pub size: u64,
    pub now: i64,
    pub to_is_dir: bool,
    pub meta: Option<FileMeta>,
}

/// What an event asks of the watcher thread besides the change to the index: a directory to
/// watch, and whether the index must be built anew.
#[derive(Debug, Clone, PartialEq, Eq)]
pub struct EventOutcome {
    pub watch_dir: Option<String>,
    pub reindex: bool,
}

/// `b` is `a` after `remove(path)`.
pub open spec fn after_remove(a: Index, b: Index, path: Seq<char>) -> bool {
    let hit = path_hit(a.path_to_id@, a.entries@, path);
    &&& b.wf()
    &&& hit ==> b.entries@ == swap_removed(
        a.entries@,
        a.path_to_id@[fnv1a_spec(encode_utf8(path))] as int,
    )
    &&& hit ==> b.path_to_id@ == path_map_after_remove(a.path_to_id@, a.entries@, path)
    &&& !hit ==> b.entries@ == a.entries@ && b.path_to_id@ == a.path_to_id@
    &&& b.ext_keys() == a.ext_keys()
}

/// `b` is `a` with `path` added, as `insert_with_metadata` adds it with this size and every
/// time `now`, where the index has room and the path can be recorded; else `b` is `a`.
pub open spec fn after_insert(a: Index, b: Index, path: Seq<char>, is_dir: bool, size: u64, now: i64) -> bool {
    if a.entries@.len() < u32::MAX && insertable(encode_utf8(path), is_dir) {
        let id = a.entries@.len() as int;
        &&& b.wf()
        &&& b.entries@ == a.entries@.push(b.entries@[id])
        &&& is_new_entry(b.entries@[id], path, is_dir, size, now, now, now)
        &&& b.path_to_id@ == a.path_to_id@.insert(fnv1a_spec(encode_utf8(path)), id as u32)
        &&& b.ext_keys() == if is_dir {
            a.ext_keys()
        } else {
            a.ext_keys().insert(ext_chars(b.entries@[id]))
        }
    } else {
        b == a
    }
}

/// `b` is `a` after `update_metadata(path, meta)`.
pub open spec fn after_update(a: Index, b: Index, path: Seq<char>, meta: Option<FileMeta>) -> bool {
    let hit = path_hit(a.path_to_id@, a.entries@, path);
    &&& b.wf()
    &&& b.path_to_id@ == a.path_to_id@
    &&& b.entries@ == if hit && meta is Some {
        let id = a.path_to_id@[fnv1a_spec(encode_utf8(path))] as int;
        a.entries@.update(id, with_meta(a.entries@[id], meta->0))
    } else {
        a.entries@
    }
    &&& b.ext_keys() == a.ext_keys()
}

fn insert_if_room(index: &mut Index, path: &str, is_dir: bool, size: u64, now: i64)
    requires
        old(index).wf(),
    ensures
        after_insert(*old(index), *final(index), path@, is_dir, size, now),
{
    if index.entries.len() < u32::MAX as usize && insertable_path(path, is_dir) {
        index.insert_with_metadata(path, is_dir, size, now, now, now);
    }
}

/// Applies one watcher event to the index. Events under the state or settings directory are
/// left alone. A created path is added (and a created directory is to be watched); a deleted
/// path is removed; a modified path gets the metadata read for it; a move removes the old path
/// and adds the new one, then reads its metadata; an overflow counts against the watcher's
/// health and asks for a new index.
pub fn apply_event(
    index: &mut Index,
    status: &mut WatcherStatus,
    event: &WatchEvent,
    state_dir: &str,
    config_dir: &str,
    facts: EventFacts,
) -> (r: EventOutcome)
    requires
        old(index).wf(),
        old(status).watch_overflow_count < u64::MAX,
    ensures
        final(index).wf(),
        match event {
            WatchEvent::Create { path, is_dir } => if own_path(path@, state_dir@, config_dir@) {
                &&& *final(index) == *old(index)
                &&& r == (EventOutcome { watch_dir: None, reindex: false })
            } else {
                &&& after_insert(*old(index), *final(index), path@, *is_dir, facts.size, facts.now)
                &&& r.watch_dir == (if *is_dir { Some(*path) } else { None })
                &&& !r.reindex
            },
            WatchEvent::Delete { path } => {
                &&& if own_path(path@, state_dir@, config_dir@) {
                    *final(index) == *old(index)
                } else {
                    after_remove(*old(index), *final(index), path@)
                }
                &&& r == (EventOutcome { watch_dir: None, reindex: false })
            },
            WatchEvent::Modify { path } => {
                &&& if own_path(path@, state_dir@, config_dir@) {
                    *final(index) == *old(index)
                } else {
                    after_update(*old(index), *final(index), path@, facts.meta)
                }
                &&& r == (EventOutcome { watch_dir: None, reindex: false })
            },
            WatchEvent::Move { from, to } => {
                &&& if own_path(from@, state_dir@, config_dir@) || own_path(to@, state_dir@, config_dir@) {
                    *final(index) == *old(index)
                } else {
                    exists|i1: Index, i2: Index|
                        after_remove(*old(index), i1, from@)
                        && after_insert(i1, i2, to@, facts.to_is_dir, facts.size, facts.now)
                        && after_update(i2, *final(index), to@, facts.meta)
                }
                &&& r == (EventOutcome { watch_dir: None, reindex: false })
            },
            WatchEvent::Overflow { .. } => {
                &&& *final(index) == *old(index)
                &&& r == (EventOutcome { watch_dir: None, reindex: true })
            },
        },
        match event {
            WatchEvent::Overflow { .. } => *final(status) == (WatcherStatus {
                is_healthy: false,
                watch_overflow_count: (old(status).watch_overflow_count + 1) as u64,
                ..*old(status)
            }),
            _ => *final(status) == *old(status),
        },
{
    match event {
        WatchEvent::Create { path, is_dir } => {
            if is_own_path(path.as_str(), state_dir, config_dir) {
                return EventOutcome { watch_dir: None, reindex: false };
            }
            insert_if_room(index, path.as_str(), *is_dir, facts.size, facts.now);
            let watch_dir = if *is_dir {
                Some(path.clone())
            } else {
                None
            };
            EventOutcome { watch_dir, reindex: false }
        },
        WatchEvent::Delete { path } => {
            if !is_own_path(path.as_str(), state_dir, config_dir) {
                index.remove(path.as_str());
            }
            EventOutcome { watch_dir: None, reindex: false }
        },
        WatchEvent::Modify { path } => {
            if !is_own_path(path.as_str(), state_dir, config_dir) {
                index.update_metadata(path.as_str(), facts.meta);
            }
            EventOutcome { watch_dir: None, reindex: false }
        },
        WatchEvent::Move { from, to } => {
            if is_own_path(to.as_str(), state_dir, config_dir) || is_own_path(
                from.as_str(),
                state_dir,
                config_dir,
            ) {
                return EventOutcome { watch_dir: None, reindex: false };
            }
            let ghost i0 = *index;
            index.remove(from.as_str());
            let ghost i1 = *index;
            insert_if_room(index, to.as_str(), facts.to_is_dir, facts.size, facts.now);
            let ghost i2 = *index;
            index.update_metadata(to.as_str(), facts.meta);
            assert(after_remove(i0, i1, from@));
            assert(after_insert(i1, i2, to@, facts.to_is_dir, facts.size, facts.now));
            EventOutcome { watch_dir: None, reindex: false }
        },
        WatchEvent::Overflow { .. } => {
            status.watch_overflow_count = status.watch_overflow_count + 1;
            status.is_healthy = false;
            EventOutcome { watch_dir: None, reindex: true }
        },
    }
}

/// Records the result of watching one directory: a success counts a watched directory, a
/// failure counts against the watcher's health.
pub fn record_watch(status: &mut WatcherStatus, watched: bool)
    requires
        old(status).watched_dir_count < usize::MAX,
        old(status).watch_failure_count < usize::MAX,
    ensures
        watched ==> *final(status) == (WatcherStatus {
            watched_dir_count: (old(status).watched_dir_count + 1) as usize,
            ..*old(status)
        }),
        !watched ==> *final(status) == (WatcherStatus {
            watch_failure_count: (old(status).watch_failure_count + 1) as usize,
            is_healthy: false,
            ..*old(status)
        }),
{
    if watched {
        status.watched_dir_count = status.watched_dir_count + 1;
    } else {
        status.watch_failure_count = status.watch_failure_count + 1;
        status.is_healthy = false;
    }
}

/// The watcher is healthy after a batch of events when no watch has failed and no event was
/// lost.
pub fn finish_batch(status: &mut WatcherStatus, needs_reindex: bool)
    ensures
        *final(status) == (WatcherStatus {
            is_healthy: old(status).watch_failure_count == 0 && !needs_reindex,
            ..*old(status)
        }),
{
    status.is_healthy = status.watch_failure_count == 0 && !needs_reindex;
}

/// The number of `true` results among `v`.
pub open spec fn count_true(v: Seq<bool>) -> nat
    decreases v.len(),
{
    if v.len() == 0 {
        0
    } else {
        count_true(v.drop_last()) + if v.last() {
            1nat
        } else {
            0nat
        }
    }
}

proof fn lemma_count_true_bound(v: Seq<bool>)
    ensures
        count_true(v) <= v.len(),
    decreases v.len(),
{
    if v.len() > 0 {
        lemma_count_true_bound(v.drop_last());
    }
}

/// The counters after watches are installed afresh: one result per directory, `true` where
/// the directory is watched. The overflow count is kept.
pub fn install_results(status: &mut WatcherStatus, results: &Vec<bool>)
    ensures
        final(status).watched_dir_count == count_true(results@),
        final(status).watch_failure_count == results@.len() - count_true(results@),
        final(status).is_healthy == (count_true(results@) == results@.len()),
        final(status).watch_overflow_count == old(status).watch_overflow_count,
{
    status.watched_dir_count = 0;
    status.watch_failure_count = 0;
    let mut i: usize = 0;
    while i < results.len()
        invariant
            i <= results@.len(),
            status.watched_dir_count == count_true(results@.take(i as int)),
            status.watch_failure_count == i - count_true(results@.take(i as int)),
            status.watch_overflow_count == old(status).watch_overflow_count,
        decreases results.len() - i,
    {
        proof {
            assert(results@.take(i + 1).drop_last() =~= results@.take(i as int));
            lemma_count_true_bound(results@.take(i as int));
        }
        if results[i] {
            status.watched_dir_count = status.watched_dir_count + 1;
        } else {
            status.watch_failure_count = status.watch_failure_count + 1;
        }
        i += 1;
    }
    assert(results@.take(results@.len() as int) =~= results@);
    status.is_healthy = status.watch_failure_count == 0;
}

/// An event concerns the watched roots: its path lies under one of them (for a move, either
/// end does); a lost-events notice always does.
pub open spec fn event_in_roots(e: WatchEvent, roots: Seq<Seq<char>>) -> bool {
    match e {
        WatchEvent::Create { path, .. } => within_roots(path@, roots),
        WatchEvent::Delete { path } => within_roots(path@, roots),
        WatchEvent::Modify { path } => within_roots(path@, roots),
        WatchEvent::Move { from, to } => within_roots(from@, roots) || within_roots(to@, roots),
        WatchEvent::Overflow { .. } => true,
    }
}

/// Whether the daemon attends to `event`: events outside the watched roots are passed over.
pub fn concerns_roots(event: &WatchEvent, roots: &Vec<String>) -> (r: bool)
    ensures
        r == event_in_roots(*event, strings_view(roots@)),
{
    match event {
        WatchEvent::Create { path, .. } => is_within_roots(path.as_str(), roots),
        WatchEvent::Delete { path } => is_within_roots(path.as_str(), roots),
        WatchEvent::Modify { path } => is_within_roots(path.as_str(), roots),
        WatchEvent::Move { from, to } => is_within_roots(from.as_str(), roots) || is_within_roots(
            to.as_str(),
            roots,
        ),
        WatchEvent::Overflow { .. } => true,
    }
}

} // verus!
