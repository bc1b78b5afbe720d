use toge_core::index::Index;
use toge_core::sort::{sort_ids, SortKey};

fn sample_index() -> Index {
    let mut idx = Index::new();
    idx.insert("/home/bob/music/song.mp3", false);
    idx.insert("/home/alice/docs/foo.txt", false);
    idx.insert("/home/alice/docs/bar.rs", false);
    idx.insert("/home/bob/music/aria.mp3", false);
    idx
}

#[test]
fn test_sort_by_name_ascending() {
    let idx = sample_index();
    let mut ids: Vec<u32> = (0..idx.count() as u32).collect();
    sort_ids(&idx, &mut ids, SortKey::Name, true);
    let names: Vec<&str> = ids.iter().map(|id| idx.get_path(*id).unwrap()).collect();
    assert_eq!(
        names,
        vec![
            "/home/bob/music/aria.mp3",
            "/home/alice/docs/bar.rs",
            "/home/alice/docs/foo.txt",
            "/home/bob/music/song.mp3",
        ]
    );
}

#[test]
fn test_sort_by_path_ascending() {
    let idx = sample_index();
    let mut ids: Vec<u32> = (0..idx.count() as u32).collect();
    sort_ids(&idx, &mut ids, SortKey::Path, true);
    let names: Vec<&str> = ids.iter().map(|id| idx.get_path(*id).unwrap()).collect();
    assert_eq!(
        names,
        vec![
            "/home/alice/docs/bar.rs",
            "/home/alice/docs/foo.txt",
            "/home/bob/music/aria.mp3",
            "/home/bob/music/song.mp3",
        ]
    );
}

#[test]
fn test_sort_by_size_descending() {
    let idx = sample_index();
    let mut ids: Vec<u32> = (0..idx.count() as u32).collect();
    sort_ids(&idx, &mut ids, SortKey::Size, false);
    assert_eq!(ids.len(), 4);
}

#[test]
fn sort_by_size_descending_keeps_ties_in_order() {
    let mut idx = Index::new();
    idx.insert_with_metadata("/a", false, 5, 0, 0, 0);
    idx.insert_with_metadata("/b", false, 9, 0, 0, 0);
    idx.insert_with_metadata("/c", false, 5, 0, 0, 0);
    let mut ids: Vec<u32> = vec![0, 1, 2];
    sort_ids(&idx, &mut ids, SortKey::Size, false);
    assert_eq!(ids, vec![1, 0, 2]);
}
