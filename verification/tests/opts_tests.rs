use toge_core::opts::{NdlOptions, OutputFormat};

#[test]
fn test_parse_positional_search() {
    let opts = NdlOptions::parse(vec!["ndl".into(), "foo.txt".into()]).unwrap();
    assert_eq!(opts.search, "foo.txt");
}

#[test]
fn test_parse_multiple_positional_terms() {
    let opts = NdlOptions::parse(vec!["ndl".into(), "foo".into(), "bar".into()]).unwrap();
    assert_eq!(opts.search, "foo bar");
}

#[test]
fn test_parse_regex_flag() {
    let opts = NdlOptions::parse(vec!["ndl".into(), "-r".into(), "^foo\\d+".into()]).unwrap();
    assert_eq!(opts.regex, Some("^foo\\d+".into()));
}

#[test]
fn test_parse_case_flag() {
    let opts = NdlOptions::parse(vec!["ndl".into(), "-i".into(), "ABC".into()]).unwrap();
    assert!(opts.case);
}

#[test]
fn test_parse_whole_word_flags() {
    let opts = NdlOptions::parse(vec!["ndl".into(), "-w".into(), "foo".into()]).unwrap();
    assert!(opts.whole_word);

    let opts = NdlOptions::parse(vec!["ndl".into(), "-ww".into(), "foo".into()]).unwrap();
    assert!(opts.whole_word);
}

#[test]
fn test_parse_match_path_flag() {
    let opts = NdlOptions::parse(vec!["ndl".into(), "-p".into(), "docs".into()]).unwrap();
    assert!(opts.match_path);
}

#[test]
fn test_parse_max_results() {
    let opts = NdlOptions::parse(vec!["ndl".into(), "-n".into(), "10".into(), "foo".into()]).unwrap();
    assert_eq!(opts.max_results, 10);
}

#[test]
fn test_parse_offset() {
    let opts = NdlOptions::parse(vec!["ndl".into(), "-o".into(), "5".into(), "foo".into()]).unwrap();
    assert_eq!(opts.offset, 5);
}

#[test]
fn test_parse_show_columns() {
    let opts =
        NdlOptions::parse(vec!["ndl".into(), "-size".into(), "-dm".into(), "foo".into()]).unwrap();
    assert!(opts.show_size);
    assert!(opts.show_modified);
}

#[test]
fn test_parse_sort() {
    let opts = NdlOptions::parse(vec![
        "ndl".into(),
        "-sort".into(),
        "size-desc".into(),
        "foo".into(),
    ])
    .unwrap();
    assert_eq!(opts.sort, Some("size-desc".into()));
}

#[test]
fn test_parse_output_formats() {
    for (flag, expected) in [
        ("-csv", OutputFormat::Csv),
        ("-tsv", OutputFormat::Tsv),
        ("-txt", OutputFormat::Txt),
        ("-efu", OutputFormat::Efu),
    ] {
        let opts = NdlOptions::parse(vec!["ndl".into(), flag.into(), "foo".into()]).unwrap();
        assert_eq!(opts.format, expected, "failed for {}", flag);
    }
}

#[test]
fn test_parse_export_file() {
    let opts = NdlOptions::parse(vec![
        "ndl".into(),
        "-export-csv".into(),
        "out.csv".into(),
        "foo".into(),
    ])
    .unwrap();
    assert_eq!(opts.export_file, Some("out.csv".into()));
    assert_eq!(opts.format, OutputFormat::Csv);
}

#[test]
fn test_parse_display_flags() {
    let opts = NdlOptions::parse(vec![
        "ndl".into(),
        "-no-header".into(),
        "-pause".into(),
        "-highlight".into(),
        "-highlight-color".into(),
        "7".into(),
        "foo".into(),
    ])
    .unwrap();
    assert!(opts.no_header);
    assert!(opts.pause);
    assert!(opts.highlight);
    assert_eq!(opts.highlight_color, 7);
}

#[test]
fn test_parse_meta_flags() {
    let opts = NdlOptions::parse(vec!["ndl".into(), "-status".into()]).unwrap();
    assert!(opts.status);

    let opts = NdlOptions::parse(vec!["ndl".into(), "-save-db".into()]).unwrap();
    assert!(opts.save_db);

    let opts = NdlOptions::parse(vec!["ndl".into(), "-reindex".into()]).unwrap();
    assert!(opts.reindex);

    let opts = NdlOptions::parse(vec!["ndl".into(), "-get-result-count".into(), "foo".into()]).unwrap();
    assert!(opts.get_result_count);

    let opts = NdlOptions::parse(vec!["ndl".into(), "-get-total-size".into(), "foo".into()]).unwrap();
    assert!(opts.get_total_size);
}

#[test]
fn test_parse_sort_direction_flags_affect_search() {
    let opts = NdlOptions::parse(vec![
        "ndl".into(),
        "-sort".into(),
        "size".into(),
        "-sort-ascending".into(),
        "foo".into(),
    ])
    .unwrap();
    assert!(opts.search.contains("sort:size-asc"));

    let opts = NdlOptions::parse(vec![
        "ndl".into(),
        "-sort".into(),
        "size".into(),
        "-sort-descending".into(),
        "foo".into(),
    ])
    .unwrap();
    assert!(opts.search.contains("sort:size-desc"));
}

#[test]
fn test_parse_help_and_version() {
    let opts = NdlOptions::parse(vec!["ndl".into(), "-h".into()]).unwrap();
    assert!(opts.help);

    let opts = NdlOptions::parse(vec!["ndl".into(), "-version".into()]).unwrap();
    assert!(opts.version);
}

#[test]
fn test_parse_windows_style_attribute_flags() {
    let opts = NdlOptions::parse(vec!["ndl".into(), "/ad".into(), "foo".into()]).unwrap();
    assert!(opts.search.contains("folder:"));

    let opts = NdlOptions::parse(vec!["ndl".into(), "/a-d".into(), "foo".into()]).unwrap();
    assert!(opts.search.contains("file:"));
}

#[test]
fn test_parse_negative_max_results_is_error() {
    let result = NdlOptions::parse(vec!["ndl".into(), "-n".into(), "-5".into(), "foo".into()]);
    assert!(result.is_err());
}

#[test]
fn parse_builds_search_from_flags_and_terms() {
    let opts = NdlOptions::parse(vec![
        "ndl".into(),
        "-i".into(),
        "-ww".into(),
        "-p".into(),
        "-sort".into(),
        "Name".into(),
        "foo".into(),
        "-path".into(),
        "/tmp".into(),
        "-r".into(),
        "a.c".into(),
    ])
    .unwrap();
    assert_eq!(opts.search, "case: ww: path: sort:Name-desc foo path:/tmp regex:a.c");
    assert_eq!(opts.path_filter, Some("/tmp".into()));
}

#[test]
fn sort_with_direction_is_kept_as_given() {
    let opts = NdlOptions::parse(vec!["ndl".into(), "-sort".into(), "Size-ASC".into()]).unwrap();
    assert_eq!(opts.search, "sort:Size-ASC");
    let opts = NdlOptions::parse(vec!["ndl".into(), "-s".into(), "-sort-ascending".into()]).unwrap();
    assert_eq!(opts.search, "sort:path-asc");
}

#[test]
fn defaults_without_arguments() {
    let opts = NdlOptions::parse(vec!["ndl".into()]).unwrap();
    assert_eq!(opts, NdlOptions::default());
    assert_eq!(opts.max_results, usize::MAX);
    assert_eq!(opts.highlight_color, 2);
    assert_eq!(opts.search, "");
    let empty = NdlOptions::parse(Vec::new()).unwrap();
    assert_eq!(empty, NdlOptions::default());
}

#[test]
fn parse_errors_name_the_problem() {
    assert_eq!(NdlOptions::parse(vec!["ndl".into(), "-bogus".into()]).unwrap_err(), "unknown flag: -bogus");
    assert_eq!(NdlOptions::parse(vec!["ndl".into(), "-".into()]).unwrap_err(), "unknown flag: -");
    assert_eq!(NdlOptions::parse(vec!["ndl".into(), "-r".into()]).unwrap_err(), "missing regex value");
    assert_eq!(NdlOptions::parse(vec!["ndl".into(), "-n".into()]).unwrap_err(), "missing max-results value");
    assert_eq!(NdlOptions::parse(vec!["ndl".into(), "-export-efu".into()]).unwrap_err(), "missing export file");
    assert_eq!(NdlOptions::parse(vec!["ndl".into(), "-o".into(), "x".into()]).unwrap_err(), "invalid number: x");
    assert_eq!(
        NdlOptions::parse(vec!["ndl".into(), "-highlight-color".into(), "256".into()]).unwrap_err(),
        "invalid highlight color"
    );
    assert_eq!(NdlOptions::parse(vec!["ndl".into(), "/x".into()]).unwrap_err(), "unknown windows flag: /x");
    assert_eq!(NdlOptions::parse(vec!["ndl".into(), "/oQ".into()]).unwrap_err(), "unknown sort flag: /oQ");
}

#[test]
fn windows_switches() {
    let opts = NdlOptions::parse(vec!["ndl".into(), "foo".into(), "/aDD".into(), "/o-S".into()]).unwrap();
    assert_eq!(opts.search, "folder: folder: foo sort:size-asc");
    let opts = NdlOptions::parse(vec!["ndl".into(), "---help".into(), "-n".into(), "+7".into()]).unwrap();
    assert!(opts.help);
    assert_eq!(opts.max_results, 7);
}
