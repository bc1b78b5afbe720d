//! File-name indexing and search: the in-memory index, the query language, the matcher,
//! the wire protocol between client and daemon, and the on-disk index format.
use vstd::prelude::*;

pub mod text;
pub mod postings;
pub mod index;
pub mod order;
pub mod db;
pub mod query;
pub mod matcher;
pub mod sort;
pub mod ipc;
pub mod opts;
pub mod config;
pub mod highlight;
pub mod sys;
pub mod keyboard;
pub mod render;
pub mod walker;
pub mod inotify;
pub mod format;
pub mod daemon;
pub mod watch;
pub mod answer;
pub mod fanotify;
pub mod events;
pub mod gui;
pub mod plan;

verus! {
} // verus!
