use toge_core::highlight::{render_ansi, strip_ansi};

#[test]
fn test_render_ansi_wraps_marked_terms() {
    let rendered = render_ansi("*foo*.txt", 2); // green
    assert!(rendered.contains("\x1b[32mfoo\x1b[0m"));
    assert!(!rendered.contains('*'));
}

#[test]
fn test_render_ansi_escapes_literal_asterisks() {
    let rendered = render_ansi("**foo**.txt", 2);
    assert!(rendered.contains("*foo*"));
    assert!(!rendered.contains("\x1b[32m*foo*\x1b[0m"));
}

#[test]
fn test_strip_ansi_removes_codes() {
    let raw = "\x1b[32mfoo\x1b[0m".to_string();
    assert_eq!(strip_ansi(&raw), "foo");
}

#[test]
fn render_ansi_exact_output() {
    assert_eq!(render_ansi("a*bc*d", 9), "a\x1b[31mbc\x1b[0md");
    assert_eq!(render_ansi("x*open", 2), "x*open");
    assert_eq!(render_ansi("**", 2), "*");
    assert_eq!(render_ansi("*", 2), "*");
    assert_eq!(render_ansi("", 2), "");
}

#[test]
fn strip_undoes_render() {
    let s = "/tmp/*foo*_*bar*.txt";
    assert_eq!(strip_ansi(&render_ansi(s, 3)), "/tmp/foo_bar.txt");
    assert_eq!(strip_ansi("no codes"), "no codes");
    assert_eq!(strip_ansi("cut \x1b[3"), "cut ");
}
