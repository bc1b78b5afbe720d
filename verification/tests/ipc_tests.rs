use toge_core::ipc::{OutputFormat, QueryRequest, Request, Response, ResultsResponse, StatusResponse};

#[test]
fn tests_test_request_query_roundtrip() {
    let req = Request::Query(QueryRequest {
        id: 7,
        raw: "foo bar".into(),
        max_results: 100,
        offset: 0,
        format: OutputFormat::Default,
        highlight: false,
    });
    let bytes = req.encode();
    let decoded = Request::decode(&bytes).unwrap();
    assert_eq!(req, decoded);
}

#[test]
fn tests_test_request_status_roundtrip() {
    let req = Request::Status;
    let bytes = req.encode();
    let decoded = Request::decode(&bytes).unwrap();
    assert_eq!(req, decoded);
}

#[test]
fn tests_test_response_results_roundtrip() {
    let resp = Response::Results(ResultsResponse {
        id: 1,
        total_count: 42,
        total_size: 0,
        paths: vec!["/a.txt".into(), "/b.txt".into()],
    });
    let bytes = resp.encode();
    let decoded = Response::decode(&bytes).unwrap();
    assert_eq!(resp, decoded);
}

#[test]
fn tests_test_response_status_roundtrip() {
    let resp = Response::Status(StatusResponse {
        indexed_count: 1234,
        is_ready: true,
        watcher_healthy: true,
        watched_dir_count: 12,
        watch_failure_count: 1,
        watch_overflow_count: 2,
        last_updated_unix: 1700000000,
        build_duration_ms: 567,
    });
    let bytes = resp.encode();
    let decoded = Response::decode(&bytes).unwrap();
    assert_eq!(resp, decoded);
}

#[test]
fn tests_test_decode_garbage_returns_error() {
    assert!(Response::decode(b"not a valid message").is_err());
}

#[test]
fn query_request_wire_layout() {
    let req = Request::Query(QueryRequest {
        id: 2,
        raw: "ab".into(),
        max_results: 3,
        offset: 4,
        format: OutputFormat::Tsv,
        highlight: true,
    });
    let mut expected = vec![1u8];
    expected.extend_from_slice(&2u64.to_le_bytes());
    expected.extend_from_slice(&2u64.to_le_bytes());
    expected.extend_from_slice(b"ab");
    expected.extend_from_slice(&3u64.to_le_bytes());
    expected.extend_from_slice(&4u64.to_le_bytes());
    expected.push(2);
    expected.push(1);
    assert_eq!(req.encode(), expected);
    assert_eq!(Request::decode(&expected).unwrap(), req);
}

#[test]
fn simple_messages_are_one_byte() {
    assert_eq!(Request::Flush.encode(), vec![3u8]);
    assert_eq!(Request::Reindex.encode(), vec![4u8]);
    assert_eq!(Request::Quit.encode(), vec![5u8]);
    assert_eq!(Response::Ack.encode(), vec![3u8]);
    assert_eq!(Request::decode(&[5]).unwrap(), Request::Quit);
    assert_eq!(Response::decode(&[3]).unwrap(), Response::Ack);
}

#[test]
fn error_response_roundtrip() {
    let resp = Response::Error("index not ready".to_string());
    assert_eq!(Response::decode(&resp.encode()).unwrap(), resp);
}

#[test]
fn request_decode_errors_name_the_missing_field() {
    assert_eq!(Request::decode(&[]).unwrap_err(), "empty message");
    assert_eq!(Request::decode(&[9]).unwrap_err(), "unknown request type");
    assert_eq!(Request::decode(&[1, 0, 0]).unwrap_err(), "missing id");
    let mut b = vec![1u8];
    b.extend_from_slice(&7u64.to_le_bytes());
    assert_eq!(Request::decode(&b).unwrap_err(), "missing raw");
    b.extend_from_slice(&3u64.to_le_bytes());
    b.extend_from_slice(b"foo");
    assert_eq!(Request::decode(&b).unwrap_err(), "missing max_results");
    b.extend_from_slice(&10u64.to_le_bytes());
    assert_eq!(Request::decode(&b).unwrap_err(), "missing offset");
    b.extend_from_slice(&0u64.to_le_bytes());
    assert_eq!(Request::decode(&b).unwrap_err(), "missing format");
    let mut bad = b.clone();
    bad.push(99);
    assert_eq!(Request::decode(&bad).unwrap_err(), "missing format");
    b.push(1);
    match Request::decode(&b).unwrap() {
        Request::Query(q) => {
            assert_eq!(q.raw, "foo");
            assert_eq!(q.format, OutputFormat::Csv);
            assert!(!q.highlight);
        }
        other => panic!("unexpected {:?}", other),
    }
}

#[test]
fn raw_text_must_be_utf8() {
    let mut b = vec![1u8];
    b.extend_from_slice(&7u64.to_le_bytes());
    b.extend_from_slice(&2u64.to_le_bytes());
    b.extend_from_slice(&[0xff, 0xfe]);
    assert_eq!(Request::decode(&b).unwrap_err(), "missing raw");
}

#[test]
fn response_decode_errors_name_the_missing_field() {
    assert_eq!(Response::decode(&[]).unwrap_err(), "empty message");
    assert_eq!(Response::decode(&[7]).unwrap_err(), "unknown response type");
    assert_eq!(Response::decode(&[1]).unwrap_err(), "missing id");
    assert_eq!(Response::decode(&[2]).unwrap_err(), "missing indexed_count");
    assert_eq!(Response::decode(&[4, 1]).unwrap_err(), "missing error");
    let mut b = vec![1u8];
    b.extend_from_slice(&1u64.to_le_bytes());
    assert_eq!(Response::decode(&b).unwrap_err(), "missing total_count");
    b.extend_from_slice(&5u64.to_le_bytes());
    b.extend_from_slice(&9u64.to_le_bytes());
    b.extend_from_slice(&2u64.to_le_bytes());
    b.extend_from_slice(&1u64.to_le_bytes());
    b.push(b'x');
    assert_eq!(Response::decode(&b).unwrap_err(), "missing path");
}

#[test]
fn results_without_total_size_read_it_as_zero() {
    let mut b = vec![1u8];
    b.extend_from_slice(&1u64.to_le_bytes());
    b.extend_from_slice(&5u64.to_le_bytes());
    let r = Response::decode(&b);
    assert_eq!(r.unwrap_err(), "missing path_count");
}

#[test]
fn status_with_missing_flags_reports_missing_counts() {
    let mut b = vec![2u8];
    b.extend_from_slice(&1u64.to_le_bytes());
    b.push(1);
    assert_eq!(Response::decode(&b).unwrap_err(), "missing watched_dir_count");
}

#[test]
fn output_format_bytes() {
    assert_eq!(OutputFormat::Efu.to_u8(), 4);
    assert_eq!(OutputFormat::from_u8(1), Some(OutputFormat::Csv));
    assert_eq!(OutputFormat::from_u8(5), None);
}

#[test]
fn test_request_query_roundtrip() {
    let req = Request::Query(QueryRequest {
        id: 7,
        raw: "foo bar".into(),
        max_results: 100,
        offset: 0,
        format: OutputFormat::Default,
        highlight: false,
    });
    let bytes = req.encode();
    let decoded = Request::decode(&bytes).unwrap();
    assert_eq!(req, decoded);
}

#[test]
fn test_request_status_roundtrip() {
    let req = Request::Status;
    let bytes = req.encode();
    let decoded = Request::decode(&bytes).unwrap();
    assert_eq!(req, decoded);
}

#[test]
fn test_decode_garbage_returns_error() {
    assert!(Response::decode(b"not a valid message").is_err());
}

#[test]
fn test_request_decode_rejects_invalid_format_byte() {
    let mut bytes = vec![1];
    bytes.extend_from_slice(&7u64.to_le_bytes());
    bytes.extend_from_slice(&3u64.to_le_bytes());
    bytes.extend_from_slice(b"foo");
    bytes.extend_from_slice(&10u64.to_le_bytes());
    bytes.extend_from_slice(&0u64.to_le_bytes());
    bytes.push(99);
    bytes.push(0);

    let err = Request::decode(&bytes).unwrap_err();
    assert_eq!(err, "missing format");
}
