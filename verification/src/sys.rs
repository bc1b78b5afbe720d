//! Watching the file system: the events a watcher reports, the interface of a watcher, and an
//! in-memory watcher that records what it is asked to watch and hands out the events it is
//! given.
use vstd::prelude::*;

verus! {

/// A file system event produced by a watcher.
#[derive(Debug, Clone, PartialEq, Eq)]
pub enum WatchEvent {
    Create { path: String, is_dir: bool },
    Delete { path: String },
    Modify { path: String },
    Move { from: String, to: String },
    Overflow { path: String },
}

/// A file system watcher: directories are watched and unwatched by path, and the events that
/// happened since the last poll are handed out.
pub trait FsWatcher {
    fn watch(&mut self, path: &str) -> Result<(), String>;

    fn unwatch(&mut self, path: &str) -> Result<(), String>;

    fn poll_events(&mut self) -> Result<Vec<WatchEvent>, String>;
}

/// A watcher that touches nothing: it records the watched paths and hands out the events that
/// were pushed to it.
pub struct FakeWatcher {
    pub watches: Vec<String>,
    pub pending: Vec<WatchEvent>,
}

pub open spec fn strings_view(v: Seq<String>) -> Seq<Seq<char>> {
    Seq::new(v.len(), |i: int| v[i]@)
}

/// The watched paths with every `p` left out.
pub open spec fn without(v: Seq<Seq<char>>, p: Seq<char>) -> Seq<Seq<char>>
    decreases v.len(),
{
    if v.len() == 0 {
        v
    } else if v.last() == p {
        without(v.drop_last(), p)
    } else {
        without(v.drop_last(), p).push(v.last())
    }
}

impl FakeWatcher {
    pub fn new() -> (r: Self)
        ensures
            r.watches@.len() == 0,
            r.pending@.len() == 0,
    {
        FakeWatcher { watches: Vec::new(), pending: Vec::new() }
    }

    /// An event to hand out at the next poll.
    pub fn push(&mut self, event: WatchEvent)
        ensures
            final(self).pending@ == old(self).pending@.push(event),
            final(self).watches@ == old(self).watches@,
    {
        self.pending.push(event);
    }
}

impl FsWatcher for FakeWatcher {
    fn watch(&mut self, path: &str) -> (r: Result<(), String>)
        ensures
            r is Ok,
            strings_view(final(self).watches@) == strings_view(old(self).watches@).push(path@),
            final(self).pending@ == old(self).pending@,
    {
        let ghost before = strings_view(self.watches@);
        self.watches.push(path.to_owned());
        assert(strings_view(self.watches@) =~= before.push(path@));
        Ok(())
    }

    fn unwatch(&mut self, path: &str) -> (r: Result<(), String>)
        ensures
            r is Ok,
            strings_view(final(self).watches@) == without(strings_view(old(self).watches@), path@),
            final(self).pending@ == old(self).pending@,
    {
        let ghost w0 = strings_view(self.watches@);
        let mut kept: Vec<String> = Vec::new();
        let mut i: usize = 0;
        while i < self.watches.len()
            invariant
                i <= self.watches@.len(),
                w0 == strings_view(self.watches@),
                strings_view(kept@) == without(w0.take(i as int), path@),
            decreases self.watches.len() - i,
        {
            assert(w0.take(i + 1).drop_last() =~= w0.take(i as int));
            assert(w0.take(i + 1).last() == self.watches@[i as int]@);
            if !crate::text::str_eq(self.watches[i].as_str(), path) {
                let ghost before = strings_view(kept@);
                kept.push(self.watches[i].clone());
                assert(strings_view(kept@) =~= before.push(self.watches@[i as int]@));
            }
            i += 1;
        }
        assert(w0.take(w0.len() as int) =~= w0);
        self.watches = kept;
        Ok(())
    }

    fn poll_events(&mut self) -> (r: Result<Vec<WatchEvent>, String>)
        ensures
            r matches Ok(v) && v@ == old(self).pending@,
            final(self).pending@.len() == 0,
            final(self).watches@ == old(self).watches@,
    {
        let mut taken: Vec<WatchEvent> = Vec::new();
        std::mem::swap(&mut taken, &mut self.pending);
        Ok(taken)
    }
}

/// Unwatching a path that is not watched changes nothing.
pub proof fn law_unwatch_unknown_path(v: Seq<Seq<char>>, p: Seq<char>)
    requires
        !v.contains(p),
    ensures
        without(v, p) == v,
    decreases v.len(),
{
    if v.len() > 0 {
        assert(!v.drop_last().contains(p)) by {
            if v.drop_last().contains(p) {
                let j = choose|j: int| 0 <= j < v.drop_last().len() && v.drop_last()[j] == p;
                assert(v[j] == p);
            }
        }
        law_unwatch_unknown_path(v.drop_last(), p);
        assert(v.drop_last().push(v.last()) =~= v);
    }
}

/// After unwatching a path it is no longer watched, and every other watch stays.
pub proof fn law_unwatch_removes_only_that_path(v: Seq<Seq<char>>, p: Seq<char>, q: Seq<char>)
    ensures
        !without(v, p).contains(p),
        q != p ==> (without(v, p).contains(q) <==> v.contains(q)),
    decreases v.len(),
{
    if v.len() > 0 {
        law_unwatch_removes_only_that_path(v.drop_last(), p, q);
        let w = without(v.drop_last(), p);
        if v.last() != p {
            assert(!w.push(v.last()).contains(p)) by {
                if w.push(v.last()).contains(p) {
                    let j = choose|j: int| 0 <= j < w.push(v.last()).len() && w.push(v.last())[j] == p;
                    if j < w.len() {
                        assert(w[j] == p);
                    }
                }
            }
        }
        if q != p {
            if v.contains(q) {
                let j = choose|j: int| 0 <= j < v.len() && v[j] == q;
                if j < v.len() - 1 {
                    assert(v.drop_last()[j] == q);
                    let k = choose|k: int| 0 <= k < w.len() && w[k] == q;
                    if v.last() != p {
                        assert(w.push(v.last())[k] == q);
                    }
                } else {
                    assert(without(v, p) == w.push(v.last()));
                    assert(w.push(v.last())[w.len() as int] == q);
                }
            }
            if without(v, p).contains(q) {
                let j = choose|j: int| 0 <= j < without(v, p).len() && without(v, p)[j] == q;
                if v.last() != p && j == w.len() {
                    assert(v[v.len() - 1] == q);
                } else {
                    assert(w[j] == q);
                    let k = choose|k: int| 0 <= k < v.drop_last().len() && v.drop_last()[k] == q;
                    assert(v[k] == q);
                }
            }
        }
    }
}

} // verus!
