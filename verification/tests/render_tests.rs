use toge_core::opts::OutputFormat;
use toge_core::render::{render_results, render_table};

#[test]
fn tests_render_csv_adds_header_and_crlf() {
    let output = render_results(&["/tmp/foo.txt".into()], OutputFormat::Csv, false);
    assert_eq!(output, "Name\r\n\"/tmp/foo.txt\"\r\n");
}

#[test]
fn tests_render_csv_without_header_omits_header_row() {
    let output = render_results(&["/tmp/foo.txt".into()], OutputFormat::Csv, true);
    assert_eq!(output, "\"/tmp/foo.txt\"\r\n");
}

#[test]
fn tests_render_tsv_without_header_omits_header_row() {
    let output = render_results(&["/tmp/foo.txt".into()], OutputFormat::Tsv, true);
    assert_eq!(output, "/tmp/foo.txt\n");
}

#[test]
fn tests_render_default_joins_with_newlines() {
    let output = render_results(
        &["/tmp/foo.txt".into(), "/tmp/bar.txt".into()],
        OutputFormat::Default,
        false,
    );
    assert_eq!(output, "/tmp/foo.txt\n/tmp/bar.txt\n");
}

#[test]
fn csv_doubles_quotes_and_plain_output_of_nothing_is_empty() {
    let output = render_results(&["a\"b".into()], OutputFormat::Csv, true);
    assert_eq!(output, "\"a\"\"b\"\r\n");
    assert_eq!(render_results(&[], OutputFormat::Txt, false), "");
    assert_eq!(render_results(&[], OutputFormat::Tsv, false), "Name\n");
    assert_eq!(render_table(&["x".into()], "H", ";", "|", false), "H|x|");
}

#[test]
fn format_time_returns_empty_for_zero() {
    assert_eq!(toge_core::format::format_time(0, None), "");
}

#[test]
fn format_time_falls_back_to_utc() {
    assert_eq!(toge_core::format::format_time(60, None), "1970-01-01 00:01");
    assert_eq!(toge_core::format::format_time(1_546_300_800, None), "2019-01-01 00:00");
    assert_eq!(toge_core::format::format_time(5, Some("local".to_string())), "local");
    assert_eq!(toge_core::format::format_time(-5, Some("local".to_string())), "");
}

#[test]
fn render_csv_adds_header_and_crlf() {
    let output = render_results(&["/tmp/foo.txt".into()], OutputFormat::Csv, false);
    assert_eq!(output, "Name\r\n\"/tmp/foo.txt\"\r\n");
}

#[test]
fn render_csv_without_header_omits_header_row() {
    let output = render_results(&["/tmp/foo.txt".into()], OutputFormat::Csv, true);
    assert_eq!(output, "\"/tmp/foo.txt\"\r\n");
}

#[test]
fn render_tsv_without_header_omits_header_row() {
    let output = render_results(&["/tmp/foo.txt".into()], OutputFormat::Tsv, true);
    assert_eq!(output, "/tmp/foo.txt\n");
}

#[test]
fn render_default_joins_with_newlines() {
    let output = render_results(
        &["/tmp/foo.txt".into(), "/tmp/bar.txt".into()],
        OutputFormat::Default,
        false,
    );
    assert_eq!(output, "/tmp/foo.txt\n/tmp/bar.txt\n");
}

#[test]
fn utc_layout_pads_every_field() {
    assert_eq!(toge_core::format::utc_layout_text(2019, 1, 1, 0, 0), "2019-01-01 00:00");
    assert_eq!(toge_core::format::utc_layout_text(42, 3, 9, 7, 5), "0042-03-09 07:05");
    assert_eq!(toge_core::format::utc_layout_text(-1, 12, 31, 23, 59), "-001-12-31 23:59");
    assert_eq!(toge_core::format::utc_layout_text(12345, 10, 10, 10, 10), "12345-10-10 10:10");
}

#[test]
fn format_time_utc_reads_the_calendar_fields() {
    assert_eq!(toge_core::format::format_time_utc(0), "1970-01-01 00:00");
    assert_eq!(toge_core::format::format_time_utc(1_700_000_000), "2023-11-14 22:13");
    assert_eq!(toge_core::format::format_time_utc(i64::MAX), "1970-01-01 00:00");
}
