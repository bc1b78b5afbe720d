use toge_core::config::{Config, KeyboardScope, KeyboardShortcutConfig, OperatorOrder};

#[test]
fn test_load_missing_config_falls_back_to_defaults() {
    let home = Some("/home/alice".to_string());
    let cfg = Config::load(None, home.clone()).unwrap();
    assert_eq!(cfg, Config::default_config(home));
}

#[test]
fn default_config_values() {
    let cfg = Config::default_config(Some("/home/alice".to_string()));
    assert_eq!(cfg.roots, vec!["/home/alice".to_string()]);
    assert_eq!(cfg.poll_interval_secs, 300);
    assert_eq!(cfg.operator_precedence, OperatorOrder::OrAnd);
    assert!(cfg.index_size);
    assert!(!cfg.index_date_created);
    assert!(!cfg.exclude_hidden);
    assert_eq!(cfg.exclude_fstypes, vec!["tmpfs".to_string(), "nfs4".to_string(), "fuse.sshfs".to_string()]);
    assert_eq!(cfg.keyboard.new_window_hotkey, "Ctrl+N");
    assert!(Config::default_config(None).roots.is_empty());
}

#[test]
fn parse_config_text() {
    let text = r#"
[index]
size = true
date_modified = true

[roots]
include = ["/home", "/data"]
exclude_fstypes = ["tmpfs", "nfs4"]

[exclude]
hidden_files = true
patterns = ["*.tmp"]
folders = ["**/node_modules"]
"#;
    let cfg = Config::load(Some(text), None).unwrap();
    assert!(cfg.index_size);
    assert!(cfg.index_date_modified);
    assert!(cfg.exclude_hidden);
    assert_eq!(cfg.roots, vec!["/home".to_string(), "/data".to_string()]);
    assert!(cfg.exclude_fstypes.contains(&"tmpfs".to_string()));
    assert!(cfg.exclude_patterns.contains(&"*.tmp".to_string()));
    assert!(cfg.exclude_folders.contains(&"**/node_modules".to_string()));
}

#[test]
fn parse_comments_polling_and_auto_detect() {
    let text = "# settings\n[roots]\nauto_detect = false # no home\n[polling]\ninterval_secs = 42\r\n[index]\noperator_precedence = and_or\n";
    let cfg = Config::parse(text, Some("/home/bob".to_string())).unwrap();
    assert!(cfg.roots.is_empty());
    assert_eq!(cfg.poll_interval_secs, 42);
    assert_eq!(cfg.operator_precedence, OperatorOrder::AndOr);
}

#[test]
fn parse_errors() {
    assert_eq!(Config::parse("[index]\nsize\n", None).unwrap_err(), "expected key=value at line 2");
    assert_eq!(Config::parse("[index]\nsize = yes", None).unwrap_err(), "expected true/false, got: yes");
    assert_eq!(
        Config::parse("[index]\noperator_precedence = both", None).unwrap_err(),
        "unknown precedence: both"
    );
    assert_eq!(Config::parse("[exclude]\npatterns = *.tmp", None).unwrap_err(), "expected array, got: *.tmp");
    assert_eq!(Config::parse("[polling]\ninterval_secs = soon", None).unwrap_err(), "invalid interval");
    assert_eq!(
        Config::parse("[keyboard]\nnew_window_hotkey = Ctrl+N", None).unwrap_err(),
        "expected string, got: Ctrl+N"
    );
    assert_eq!(
        Config::parse("[keyboard.shortcuts]\nglobal = [\"open\"]", None).unwrap_err(),
        "invalid keyboard shortcut entry: open"
    );
}

#[test]
fn keyboard_settings_round_trip_through_text() {
    let mut cfg = Config::default_config(None);
    cfg.keyboard.new_window_hotkey = "Ctrl+N".to_string();
    cfg.keyboard.show_window_hotkey = "Say \"hi\"".to_string();
    cfg.keyboard.command_shortcuts = vec![
        KeyboardShortcutConfig {
            command_id: "window.open_options".to_string(),
            scope: KeyboardScope::Global,
            accelerator: "Ctrl+Comma".to_string(),
        },
        KeyboardShortcutConfig {
            command_id: "result.open".to_string(),
            scope: KeyboardScope::ResultList,
            accelerator: "Enter".to_string(),
        },
    ];
    let text = cfg.to_toml();
    assert!(text.starts_with("[index]\nsize = true\n"));
    assert!(text.contains("global = [\"window.open_options|Ctrl+Comma\"]\n"));
    assert!(text.contains("show_window_hotkey = \"Say \\\"hi\\\"\"\n"));
    let loaded = Config::parse(&text, None).unwrap();
    assert_eq!(loaded.keyboard.new_window_hotkey, "Ctrl+N");
    assert_eq!(loaded.keyboard.show_window_hotkey, "Say \"hi\"");
    assert_eq!(loaded.keyboard.command_shortcuts, cfg.keyboard.command_shortcuts);
    assert_eq!(loaded, cfg);
}

#[test]
fn to_toml_writes_every_section() {
    let cfg = Config::default_config(Some("/home/alice".to_string()));
    let text = cfg.to_toml();
    assert!(text.contains("[roots]\nauto_detect = false\ninclude = [\"/home/alice\"]\n"));
    assert!(text.contains("[polling]\ninterval_secs = 300\n"));
    assert!(text.ends_with("result_list = []\n"));
    assert_eq!(Config::parse(&text, None).unwrap(), cfg);
}

#[test]
fn items_with_spaces_and_empty_items_read_back() {
    let mut cfg = Config::default_config(Some("/home/bob".to_string()));
    cfg.exclude_patterns = vec!["".to_string(), " spaced item ".to_string(), "*.tmp".to_string()];
    cfg.keyboard.toggle_window_hotkey = "Ctrl+\\\"".to_string();
    let text = cfg.to_toml();
    assert!(text.contains("patterns = [\"\", \" spaced item \", \"*.tmp\"]\n"));
    assert_eq!(Config::parse(&text, Some("/elsewhere".to_string())).unwrap(), cfg);
}

#[test]
fn sort_by_path_is_not_written() {
    let mut cfg = Config::default_config(None);
    cfg.fast_sort_path = true;
    let loaded = Config::parse(&cfg.to_toml(), None).unwrap();
    assert!(!loaded.fast_sort_path);
}
