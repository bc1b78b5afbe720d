//! The desktop app's own state (where the daemon listens, where the settings are, and the
//! numbering of its queries) and the verdict of its watcher self-test.
use crate::config::{default_view, opt_view, parse_spec, Config};
use crate::events::{event_view, events_view, EventView};
use crate::sys::WatchEvent;
use crate::text::{push_str, string_of};
use vstd::prelude::*;

verus! {

/// The counter after one query is numbered: one more, wrapping as an atomic counter does.
pub open spec fn next_counter(c: u64) -> u64 {
    if c == u64::MAX {
        0
    } else {
        (c + 1) as u64
    }
}

/// The counter after `k` queries were numbered, starting from `c`.
pub open spec fn counter_after(c: u64, k: nat) -> u64
    decreases k,
{
    if k == 0 {
        c
    } else {
        next_counter(counter_after(c, (k - 1) as nat))
    }
}

/// Queries are numbered 1, 2, 3, ...: from a new state (counter 1), the `k`-th call of
/// `next_query_id` returns the counter after `k - 1` calls, which is `k`.
pub proof fn law_query_ids_count_up(k: nat)
    requires
        1 <= k <= u64::MAX,
    ensures
        counter_after(1, (k - 1) as nat) == k,
    decreases k,
{
    if k > 1 {
        law_query_ids_count_up((k - 1) as nat);
    }
}

/// Where the daemon listens, where the settings file is, and the number of the next query.
pub struct AppState {
    pub socket_path: String,
    pub config_path: String,
    pub query_counter: u64,
}

impl AppState {
    /// The state for these paths; queries are numbered from 1.
    pub fn new(socket_path: String, config_path: String) -> (r: AppState)
        ensures
            r.socket_path == socket_path,
            r.config_path == config_path,
            r.query_counter == 1,
    {
        AppState { socket_path, config_path, query_counter: 1 }
    }

    pub fn socket_path(&self) -> (r: String)
        ensures
            r@ == self.socket_path@,
    {
        string_of(self.socket_path.as_str())
    }

    /// The number of the next query; the counter moves on by one, wrapping as an atomic
    /// counter does.
    pub fn next_query_id(&mut self) -> (r: u64)
        ensures
            r == old(self).query_counter,
            final(self).query_counter == next_counter(old(self).query_counter),
            final(self).socket_path == old(self).socket_path,
            final(self).config_path == old(self).config_path,
    {
        let id = self.query_counter;
        self.query_counter = self.query_counter.wrapping_add(1);
        id
    }

    /// The settings read from the text of the settings file (`None` where it could not be
    /// read); settings that do not parse give way to the defaults.
    pub fn load_config(&self, text: Option<&str>, home: Option<String>) -> (r: Config)
        ensures
            match text {
                None => r@ == default_view(opt_view(home)),
                Some(t) => match parse_spec(t@, opt_view(home)) {
                    Ok(c) => r@ == c,
                    Err(_) => r@ == default_view(opt_view(home)),
                },
            },
    {
        let h2 = match &home {
            Some(h) => Some(string_of(h.as_str())),
            None => None,
        };
        match Config::load(text, home) {
            Ok(c) => c,
            Err(_) => Config::default_config(h2),
        }
    }
}

/// A watcher event as one line of the self-test's log.
pub open spec fn event_line(e: EventView) -> Seq<char> {
    match e {
        EventView::Create { path, is_dir } => "create "@ + path + if is_dir {
            " (dir)"@
        } else {
            Seq::empty()
        },
        EventView::Delete { path } => "delete "@ + path,
        EventView::Modify { path } => "modify "@ + path,
        EventView::Move { from, to } => "move "@ + from + " -> "@ + to,
        EventView::Overflow { path } => "overflow "@ + path,
    }
}

pub fn format_watch_event(event: &WatchEvent) -> (r: String)
    ensures
        r@ == event_line(event_view(*event)),
{
    match event {
        WatchEvent::Create { path, is_dir } => {
            let mut s = string_of("create ");
            push_str(&mut s, path.as_str());
            if *is_dir {
                push_str(&mut s, " (dir)");
            }
            assert(s@ =~= event_line(event_view(*event)));
            s
        },
        WatchEvent::Delete { path } => {
            let mut s = string_of("delete ");
            push_str(&mut s, path.as_str());
            s
        },
        WatchEvent::Modify { path } => {
            let mut s = string_of("modify ");
            push_str(&mut s, path.as_str());
            s
        },
        WatchEvent::Move { from, to } => {
            let mut s = string_of("move ");
            push_str(&mut s, from.as_str());
            push_str(&mut s, " -> ");
            push_str(&mut s, to.as_str());
            s
        },
        WatchEvent::Overflow { path } => {
            let mut s = string_of("overflow ");
            push_str(&mut s, path.as_str());
            s
        },
    }
}

/// The verdict of the watcher self-test: whether it passed, a summary, and the events seen.
#[derive(Debug, Clone, PartialEq, Eq)]
pub struct WatcherSelfTestResult {
    pub passed: bool,
    pub summary: String,
    pub events: Vec<String>,
}

/// The test file's creation (as a file) is among the events.
pub open spec fn saw_create(ev: Seq<EventView>, file: Seq<char>) -> bool {
    exists|i: int| 0 <= i < ev.len() && ev[i] == (EventView::Create { path: file, is_dir: false })
}

/// The test file's deletion is among the events.
pub open spec fn saw_delete(ev: Seq<EventView>, file: Seq<char>) -> bool {
    exists|i: int| 0 <= i < ev.len() && ev[i] == (EventView::Delete { path: file })
}

pub open spec fn bool_word(b: bool) -> Seq<char> {
    if b {
        "true"@
    } else {
        "false"@
    }
}

fn push_bool_word(s: &mut String, b: bool)
    ensures
        final(s)@ == old(s)@ + bool_word(b),
{
    if b {
        push_str(s, "true");
    } else {
        push_str(s, "false");
    }
}

/// The verdict on the events seen after the test file was created and deleted: passed where
/// both were seen; each event logged as a line.
pub fn self_test_result(events: &Vec<WatchEvent>, test_file: &str) -> (r: WatcherSelfTestResult)
    ensures
        r.passed == (saw_create(events_view(events@), test_file@) && saw_delete(
            events_view(events@),
            test_file@,
        )),
        r.passed ==> r.summary@ == "Watcher self-test passed: create and delete events observed"@,
        !r.passed ==> r.summary@ == "Watcher self-test failed: create seen = "@ + bool_word(
            saw_create(events_view(events@), test_file@),
        ) + ", delete seen = "@ + bool_word(saw_delete(events_view(events@), test_file@)),
        r.events@.len() == events@.len(),
        forall|i: int| 0 <= i < events@.len() ==> (#[trigger] r.events@[i])@ == event_line(
            event_view(events@[i]),
        ),
{
    let ghost ev = events_view(events@);
    let ghost f = test_file@;
    let mut lines: Vec<String> = Vec::new();
    let mut created = false;
    let mut deleted = false;
    let mut i: usize = 0;
    while i < events.len()
        invariant
            ev == events_view(events@),
            f == test_file@,
            i <= events@.len(),
            lines@.len() == i,
            forall|j: int| 0 <= j < i ==> (#[trigger] lines@[j])@ == event_line(event_view(events@[j])),
            created == exists|j: int| 0 <= j < i && ev[j] == (EventView::Create { path: f, is_dir: false }),
            deleted == exists|j: int| 0 <= j < i && ev[j] == (EventView::Delete { path: f }),
        decreases events.len() - i,
    {
        let e = &events[i];
        lines.push(format_watch_event(e));
        assert(ev[i as int] == event_view(events@[i as int]));
        match e {
            WatchEvent::Create { path, is_dir } => {
                if !*is_dir && crate::text::str_eq(path.as_str(), test_file) {
                    created = true;
                }
            },
            WatchEvent::Delete { path } => {
                if crate::text::str_eq(path.as_str(), test_file) {
                    deleted = true;
                }
            },
            _ => {},
        }
        i += 1;
    }
    let passed = created && deleted;
    let summary = if passed {
        string_of("Watcher self-test passed: create and delete events observed")
    } else {
        let mut s = string_of("Watcher self-test failed: create seen = ");
        push_bool_word(&mut s, created);
        push_str(&mut s, ", delete seen = ");
        push_bool_word(&mut s, deleted);
        s
    };
    WatcherSelfTestResult { passed, summary, events: lines }
}

} // verus!
