use toge_core::config::{Config, KeyboardScope, KeyboardShortcutConfig};
use toge_core::keyboard::{
    apply_settings_to_config, default_keyboard_settings, normalize_accelerator,
    normalize_and_validate, settings_from_config, KeyboardSettingsPayload, KeyboardShortcutPayload,
};

fn shortcut(command_id: &str, scope: &str, accelerator: &str) -> KeyboardShortcutPayload {
    KeyboardShortcutPayload {
        command_id: command_id.to_string(),
        scope: scope.to_string(),
        accelerator: accelerator.to_string(),
    }
}

#[test]
fn normalizes_accelerators() {
    assert_eq!(normalize_accelerator("ctrl+shift+n").unwrap(), "Ctrl+Shift+N");
    assert_eq!(normalize_accelerator("period").unwrap(), "Period");
    assert_eq!(normalize_accelerator(" ").unwrap(), "");
}

#[test]
fn rejects_media_keys_on_linux() {
    let error = normalize_accelerator("MediaTrackPrevious").unwrap_err();
    assert!(error.contains("not currently supported by Tauri hotkey handling on Linux"));
}

#[test]
fn rejects_conflicting_shortcuts() {
    let payload = KeyboardSettingsPayload {
        new_window_hotkey: String::new(),
        show_window_hotkey: String::new(),
        toggle_window_hotkey: String::new(),
        command_shortcuts: vec![
            shortcut("search.execute", "global", "Enter"),
            shortcut("results.open", "result_list", "Enter"),
        ],
    };

    let error = normalize_and_validate(payload).unwrap_err();
    assert!(error.contains("shortcut conflict"));
}

#[test]
fn allows_enter_in_search_and_result_scopes() {
    let payload = default_keyboard_settings();
    let normalized = normalize_and_validate(payload).unwrap();

    assert!(normalized.command_shortcuts.iter().any(|shortcut| {
        shortcut.command_id == "search.execute"
            && shortcut.scope == "search_edit"
            && shortcut.accelerator == "Enter"
    }));
    assert!(normalized.command_shortcuts.iter().any(|shortcut| {
        shortcut.command_id == "results.open"
            && shortcut.scope == "result_list"
            && shortcut.accelerator == "Enter"
    }));
}

#[test]
fn accelerator_spellings_and_errors() {
    assert_eq!(normalize_accelerator("shift + CONTROL + f12").unwrap(), "Ctrl+Shift+F12");
    assert_eq!(normalize_accelerator("cmd+alt+,").unwrap(), "Alt+Meta+Comma");
    assert_eq!(normalize_accelerator("esc").unwrap(), "Escape");
    assert_eq!(normalize_accelerator("ctrl++").unwrap_err(), "invalid accelerator: ctrl++");
    assert_eq!(normalize_accelerator("a+b").unwrap_err(), "accelerator must contain exactly one key: a+b");
    assert_eq!(normalize_accelerator("ctrl+shift").unwrap_err(), "accelerator is missing a key: ctrl+shift");
    assert_eq!(normalize_accelerator("ctrl+hyper").unwrap_err(), "unsupported key in accelerator: hyper");
    assert_eq!(normalize_accelerator("fx").unwrap_err(), "unsupported key in accelerator: fx");
}

#[test]
fn validation_errors() {
    let mut p = default_keyboard_settings();
    p.command_shortcuts.push(shortcut("x", "nowhere", "A"));
    assert_eq!(normalize_and_validate(p).unwrap_err(), "unknown keyboard scope: nowhere");

    let mut p = default_keyboard_settings();
    p.command_shortcuts = vec![shortcut("  ", "global", "A")];
    assert_eq!(normalize_and_validate(p).unwrap_err(), "command shortcut is missing command_id");

    let mut p = default_keyboard_settings();
    p.command_shortcuts = vec![shortcut("x", "global", " ")];
    assert_eq!(normalize_and_validate(p).unwrap_err(), "command shortcut for x is missing an accelerator");

    let mut p = default_keyboard_settings();
    p.command_shortcuts = vec![shortcut("a", "search_edit", "ctrl+k"), shortcut("b", "search_edit", "Ctrl+K")];
    assert_eq!(
        normalize_and_validate(p).unwrap_err(),
        "shortcut conflict: Ctrl+K for b (Search Edit) is already used by a (Search Edit)"
    );

    let mut p = default_keyboard_settings();
    p.show_window_hotkey = "ctrl+n".to_string();
    assert_eq!(
        normalize_and_validate(p).unwrap_err(),
        "window hotkey conflict: Ctrl+N is already used by New window hotkey"
    );
    let mut p = default_keyboard_settings();
    p.show_window_hotkey = "ctrl+m".to_string();
    p.toggle_window_hotkey = "Ctrl+M".to_string();
    assert_eq!(
        normalize_and_validate(p).unwrap_err(),
        "window hotkey conflict: Ctrl+M is already used by Show window hotkey"
    );
}

#[test]
fn settings_from_config_fills_in_defaults() {
    let cfg = Config::default_config(None);
    let s = settings_from_config(&cfg);
    assert_eq!(s.command_shortcuts, default_keyboard_settings().command_shortcuts);
    assert_eq!(s.new_window_hotkey, "Ctrl+N");

    let mut cfg = Config::default_config(None);
    cfg.keyboard.new_window_hotkey = String::new();
    assert_eq!(settings_from_config(&cfg), default_keyboard_settings());

    let mut cfg = Config::default_config(None);
    cfg.keyboard.command_shortcuts = vec![KeyboardShortcutConfig {
        command_id: "results.open".to_string(),
        scope: KeyboardScope::ResultList,
        accelerator: "Enter".to_string(),
    }];
    let s = settings_from_config(&cfg);
    assert_eq!(s.command_shortcuts, vec![shortcut("results.open", "result_list", "Enter")]);
}

#[test]
fn applied_settings_are_stored_in_the_config() {
    let mut cfg = Config::default_config(None);
    let mut p = default_keyboard_settings();
    p.toggle_window_hotkey = "alt+space".to_string();
    p.command_shortcuts = vec![shortcut("search.clear", "search_edit", "esc")];
    let n = apply_settings_to_config(&mut cfg, p).unwrap();
    assert_eq!(n.toggle_window_hotkey, "Alt+Space");
    assert_eq!(cfg.keyboard.toggle_window_hotkey, "Alt+Space");
    assert_eq!(
        cfg.keyboard.command_shortcuts,
        vec![KeyboardShortcutConfig {
            command_id: "search.clear".to_string(),
            scope: KeyboardScope::SearchEdit,
            accelerator: "Escape".to_string(),
        }]
    );
    let before = cfg.clone();
    let mut bad = default_keyboard_settings();
    bad.new_window_hotkey = "ctrl+".to_string();
    assert!(apply_settings_to_config(&mut cfg, bad).is_err());
    assert_eq!(cfg, before);
}

#[test]
fn stored_settings_read_back_as_the_normalised_settings() {
    let mut cfg = Config::default_config(None);
    let mut p = default_keyboard_settings();
    p.new_window_hotkey = "shift+ctrl+n".to_string();
    p.command_shortcuts = vec![
        shortcut("window.open_options", "global", "ctrl+comma"),
        shortcut("search.clear", "search_edit", "esc"),
    ];
    let n = apply_settings_to_config(&mut cfg, p).unwrap();
    assert_eq!(n.new_window_hotkey, "Ctrl+Shift+N");
    assert_eq!(settings_from_config(&cfg), n);
}

#[test]
fn normalising_an_accelerator_twice_changes_nothing() {
    for v in ["ctrl+shift+n", "  Alt + f12 ", "cmd+option+period", "a", "ctrl+,", " "] {
        let once = normalize_accelerator(v).unwrap();
        assert_eq!(normalize_accelerator(&once).unwrap(), once);
    }
}

#[test]
fn normalising_settings_twice_changes_nothing() {
    let mut p = default_keyboard_settings();
    p.new_window_hotkey = "shift+ctrl+n".to_string();
    p.command_shortcuts = vec![
        shortcut("window.open_options", "global", "ctrl+comma"),
        shortcut("search.clear", "search_edit", "esc"),
    ];
    let once = normalize_and_validate(p).unwrap();
    let twice = normalize_and_validate(once.clone()).unwrap();
    assert_eq!(twice, once);
}

#[test]
fn accelerator_parts_can_come_in_any_order() {
    let a = normalize_accelerator("ctrl+shift+n").unwrap();
    assert_eq!(normalize_accelerator("n+ctrl+shift").unwrap(), a);
    assert_eq!(normalize_accelerator("shift+n+ctrl").unwrap(), a);
    assert_eq!(normalize_accelerator("meta+alt+f5").unwrap(), normalize_accelerator("f5+alt+meta").unwrap());
}

#[test]
fn accelerators_with_two_keys_an_empty_part_or_no_key_are_refused() {
    assert!(normalize_accelerator("a+b").is_err());
    assert!(normalize_accelerator("ctrl++n").is_err());
    assert!(normalize_accelerator("ctrl").is_err());
    assert_eq!(normalize_accelerator("  ").unwrap(), "");
    assert_eq!(normalize_accelerator("n+meta+shift+alt+ctrl").unwrap(), "Ctrl+Alt+Shift+Meta+N");
}
