use toge_core::daemon::{sort_params, term_needles};
use toge_core::query::{Sort, TextTerm};
use toge_core::sort::SortKey;

#[test]
fn term_needles_ignores_negated_terms() {
    let needles = term_needles(&TextTerm::Not(Box::new(TextTerm::Substring("foo".into()))));
    assert!(needles.is_empty());
}

#[test]
fn term_needles_of_each_kind() {
    assert_eq!(term_needles(&TextTerm::Substring("Foo".into())), vec!["Foo".to_string()]);
    assert_eq!(term_needles(&TextTerm::Wildcard("*.r?s".into())), vec![".rs".to_string()]);
    assert!(term_needles(&TextTerm::Wildcard("**".into())).is_empty());
    assert_eq!(term_needles(&TextTerm::Regex("^ab\\d+é$".into())), vec!["abdé".to_string()]);
    assert_eq!(
        term_needles(&TextTerm::Or(vec![
            TextTerm::Substring("a".into()),
            TextTerm::Not(Box::new(TextTerm::Substring("b".into()))),
            TextTerm::Wildcard("c*".into()),
        ])),
        vec!["a".to_string(), "c".to_string()]
    );
}

#[test]
fn sort_params_map_each_sort() {
    assert!(sort_params(Sort::NameAsc) == (SortKey::Name, true));
    assert!(sort_params(Sort::SizeDesc) == (SortKey::Size, false));
    assert!(sort_params(Sort::ExtensionDesc) == (SortKey::Extension, false));
    assert!(sort_params(Sort::AccessedAsc) == (SortKey::Accessed, true));
}
