use toge_core::answer::{
    apply_highlight_ranges, handle_query, handle_query_rows, handle_request, highlight_path, highlight_path_last_word,
    install_index, flush_reply, mark_updated, status_response, DaemonState, Handling,
};
use toge_core::daemon::term_needles;
use toge_core::index::Index;
use toge_core::ipc::{OutputFormat, QueryRequest, Request, Response};
use toge_core::query::TextTerm;
use toge_core::watch::WatcherStatus;

fn words(terms: &[TextTerm]) -> Vec<String> {
    terms.iter().flat_map(term_needles).collect()
}

fn request(raw: &str, max_results: usize, offset: usize, highlight: bool) -> QueryRequest {
    QueryRequest {
        id: 9,
        raw: raw.to_string(),
        max_results,
        offset,
        format: OutputFormat::Default,
        highlight,
    }
}

fn sample_index() -> Index {
    let mut idx = Index::new();
    idx.insert_with_metadata("/home/alice/docs/report.txt", false, 120, 10, 10, 10);
    idx.insert_with_metadata("/home/alice/docs/summary.txt", false, 30, 20, 20, 20);
    idx.insert_with_metadata("/home/alice/docs/Report-old.txt", false, 7, 30, 30, 30);
    idx.insert_with_metadata("/home/alice/music/song.mp3", false, 4000, 40, 40, 40);
    idx
}

fn state(ready: bool) -> DaemonState {
    DaemonState {
        index: sample_index(),
        is_ready: ready,
        build_duration_ms: 12,
        last_updated_unix: 1_700_000_000,
        watcher: WatcherStatus::new(),
    }
}

#[test]
fn highlight_ranges_merge_overlapping_matches() {
    let highlighted = apply_highlight_ranges("foobar", &mut [(0, 3), (3, 6)]).unwrap();
    assert_eq!(highlighted, "*foobar*");
}

#[test]
fn highlight_ranges_ignore_invalid_spans() {
    let highlighted = apply_highlight_ranges("foobar", &mut [(10, 12), (4, 4)]).unwrap();
    assert_eq!(highlighted, "foobar");
}

#[test]
fn highlight_path_marks_multiple_terms() {
    let terms = vec![
        TextTerm::Substring("foo".into()),
        TextTerm::Substring("bar".into()),
    ];
    assert_eq!(
        highlight_path("/tmp/foo_bar.txt", &words(&terms)).unwrap(),
        "/tmp/*foo*_*bar*.txt"
    );
}

#[test]
fn highlight_path_leaves_non_matching_name_unchanged() {
    let terms = vec![TextTerm::Substring("missing".into())];
    assert_eq!(
        highlight_path("/tmp/foo_bar.txt", &words(&terms)).unwrap(),
        "/tmp/foo_bar.txt"
    );
}

#[test]
fn highlight_ranges_sorted_before_merging() {
    let highlighted = apply_highlight_ranges("abcdefgh", &[(5, 7), (0, 2), (1, 3)]).unwrap();
    assert_eq!(highlighted, "*abc*de*fg*h");
}

#[test]
fn highlight_path_ignores_case_and_marks_every_occurrence() {
    let w = vec!["ab".to_string()];
    assert_eq!(highlight_path("/x/AbcAB.ab", &w).unwrap(), "/x/*Ab*c*AB*.*ab*");
    assert_eq!(highlight_path("plain-ab", &w).unwrap(), "plain-*ab*");
}

#[test]
fn highlight_path_refuses_names_whose_lower_case_moves_bytes() {
    // "İ" lower-cases to two characters, so the match of "x" lies past the name's end:
    // that span is passed over, or (marking the last word) sliced out of range.
    let w = vec!["x".to_string()];
    assert_eq!(highlight_path("/d/\u{130}x", &w).unwrap(), "/d/\u{130}x");
    assert!(highlight_path_last_word("/d/\u{130}x", &w).is_none());
    // "Ⱥ" lower-cases to a longer character, so the match of "é" starts inside the name's "é".
    let w = vec!["\u{e9}".to_string()];
    assert!(highlight_path("/d/\u{23a}\u{e9}x", &w).is_none());
    assert!(highlight_path_last_word("/d/\u{23a}\u{e9}x", &w).is_none());
}

#[test]
fn highlight_last_word_keeps_only_the_last_word_found() {
    let w = vec!["foo".to_string(), "bar".to_string()];
    assert_eq!(highlight_path_last_word("/tmp/foo_bar.txt", &w).unwrap(), "/tmp/foo_*bar*.txt");
    let w = vec!["foo".to_string(), "zzz".to_string()];
    assert_eq!(highlight_path_last_word("/tmp/foo_bar.txt", &w).unwrap(), "/tmp/*foo*_bar.txt");
    let w = vec!["zzz".to_string()];
    assert_eq!(highlight_path_last_word("/tmp/foo_bar.txt", &w).unwrap(), "/tmp/foo_bar.txt");
}

#[test]
fn query_answer_counts_sorts_and_pages() {
    let idx = sample_index();
    let resp = handle_query(&idx, &request("report", 10, 0, false)).unwrap();
    match resp {
        Response::Results(r) => {
            assert_eq!(r.id, 9);
            assert_eq!(r.total_count, 2);
            assert_eq!(r.total_size, 127);
            assert_eq!(
                r.paths,
                vec![
                    "/home/alice/docs/Report-old.txt".to_string(),
                    "/home/alice/docs/report.txt".to_string()
                ]
            );
        }
        other => panic!("expected results, got {:?}", other),
    }
    let resp = handle_query(&idx, &request("report", 1, 1, true)).unwrap();
    match resp {
        Response::Results(r) => {
            assert_eq!(r.total_count, 2);
            assert_eq!(r.paths, vec!["/home/alice/docs/*report*.txt".to_string()]);
        }
        other => panic!("expected results, got {:?}", other),
    }
    let resp = handle_query(&idx, &request("report", 5, 7, false)).unwrap();
    match resp {
        Response::Results(r) => {
            assert_eq!(r.total_count, 2);
            assert!(r.paths.is_empty());
        }
        other => panic!("expected results, got {:?}", other),
    }
}

#[test]
fn query_that_does_not_parse_is_answered_with_the_error() {
    let idx = sample_index();
    let resp = handle_query(&idx, &request("size:<0 foo", 10, 0, false)).unwrap();
    assert!(matches!(resp, Response::Error(_)));
}

#[test]
fn query_before_ready_returns_not_ready_error() {
    let st = state(false);
    let req = Request::Query(request("foo", 10, 0, false));
    match handle_request(&req, &st).unwrap() {
        Handling::Reply(resp) => assert_eq!(resp, Response::Error("daemon not ready".into())),
        _ => panic!("expected a reply"),
    }
}

#[test]
fn status_response_uses_the_last_real_index_update_time() {
    let st = state(true);
    assert_eq!(status_response(&st).last_updated_unix, 1_700_000_000);
    assert_eq!(status_response(&st).last_updated_unix, 1_700_000_000);
    let s = status_response(&st);
    assert_eq!(s.indexed_count, 4);
    assert!(s.is_ready);
    assert_eq!(s.build_duration_ms, 12);
}

#[test]
fn requests_are_handled_by_kind() {
    let st = state(true);
    assert!(matches!(handle_request(&Request::Flush, &st), Some(Handling::Flush)));
    assert!(matches!(handle_request(&Request::Reindex, &st), Some(Handling::Reindex)));
    match handle_request(&Request::Status, &st).unwrap() {
        Handling::Reply(Response::Status(s)) => assert_eq!(s.last_updated_unix, 1_700_000_000),
        _ => panic!("expected a status"),
    }
    match handle_request(&Request::Query(request("song", 10, 0, false)), &st).unwrap() {
        Handling::Reply(Response::Results(r)) => {
            assert_eq!(r.paths, vec!["/home/alice/music/song.mp3".to_string()])
        }
        _ => panic!("expected results"),
    }
    assert_eq!(flush_reply(Ok(())), Response::Ack);
    assert_eq!(flush_reply(Err("disk full".into())), Response::Error("disk full".into()));
}

#[test]
fn installed_index_makes_the_daemon_ready() {
    let mut st = state(false);
    install_index(&mut st, Index::new(), 99, 1_800_000_000);
    assert!(st.is_ready);
    assert_eq!(st.last_updated_unix, 1_800_000_000);
    assert_eq!(status_response(&st).last_updated_unix, 1_800_000_000);
    mark_updated(&mut st, 1_800_000_005);
    assert_eq!(status_response(&st).last_updated_unix, 1_800_000_005);
    assert_eq!(st.build_duration_ms, 99);
    assert_eq!(st.index.count(), 0);
}

#[test]
fn query_rows_carry_the_parent_directory() {
    let mut idx = Index::new();
    idx.insert("/d/x1.log", false);
    idx.insert("/d/x2.log", false);
    let mut q = request("x", usize::MAX, 1, false);
    q.id = 1;
    let r = handle_query_rows(&idx, &q).unwrap().unwrap();
    assert_eq!(r.id, 1);
    assert_eq!(r.total_count, 2);
    assert_eq!(r.rows.len(), 1);
    assert_eq!(r.rows[0].path, "/d/x2.log");
    assert_eq!(r.rows[0].parent, "/d");
    assert_eq!(r.rows[0].name, "x2.log");
    assert_eq!(r.rows[0].extension, "log");
    assert!(!r.rows[0].is_dir);
}

#[test]
fn query_rows_mark_names_and_report_parse_errors() {
    let idx = sample_index();
    let r = handle_query_rows(&idx, &request("song", 10, 0, true)).unwrap().unwrap();
    assert_eq!(r.rows.len(), 1);
    assert_eq!(r.rows[0].path, "/home/alice/music/*song*.mp3");
    assert_eq!(r.rows[0].parent, "/home/alice/music");
    assert_eq!(r.rows[0].size, 4000);
    assert!(handle_query_rows(&idx, &request("size:>18446744073709551615", 10, 0, false)).unwrap().is_err());
}
