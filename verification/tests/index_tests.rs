use toge_core::index::{pack_trigram, Index};

fn sample_index() -> Index {
    let mut idx = Index::new();
    idx.insert("/home/alice/docs/foo.txt", false);
    idx.insert("/home/alice/docs/bar.rs", false);
    idx.insert("/home/alice/docs/dir1", true);
    idx.insert("/home/bob/music/song.mp3", false);
    idx.insert("/home/bob/music/README", false);
    idx
}

#[test]
fn test_insert_assigns_sequential_ids() {
    let mut idx = Index::new();
    assert_eq!(idx.insert("/a.txt", false), 0);
    assert_eq!(idx.insert("/b.rs", false), 1);
    assert_eq!(idx.insert("/dir", true), 2);
}

#[test]
fn test_count() {
    let idx = sample_index();
    assert_eq!(idx.count(), 5);
}

#[test]
fn test_get_path() {
    let idx = sample_index();
    assert_eq!(idx.get_path(0), Some("/home/alice/docs/foo.txt"));
    assert_eq!(idx.get_path(4), Some("/home/bob/music/README"));
    assert_eq!(idx.get_path(99), None);
}

#[test]
fn test_search_substring_case_insensitive() {
    let idx = sample_index();
    let mut ids = idx.search_substring("foo");
    ids.sort();
    assert_eq!(ids, vec![0]);

    let mut ids = idx.search_substring("TXT");
    ids.sort();
    assert_eq!(ids, vec![0]);
}

#[test]
fn test_search_substring_matches_filename_only_by_default() {
    let idx = sample_index();
    let ids = idx.search_substring("docs");
    assert!(ids.is_empty(), "default search should match filename only");
}

#[test]
fn test_search_substring_multiple_matches() {
    let idx = sample_index();
    let mut ids = idx.search_substring("o");
    ids.sort();
    assert_eq!(ids, vec![0, 3]);
}

#[test]
fn test_search_prefix() {
    let idx = sample_index();
    let mut ids = idx.search_prefix("foo");
    ids.sort();
    assert_eq!(ids, vec![0]);

    let mut ids = idx.search_prefix("bar");
    ids.sort();
    assert_eq!(ids, vec![1]);
}

#[test]
fn test_search_prefix_empty_matches_all_entries() {
    let idx = sample_index();
    let mut ids = idx.search_prefix("");
    ids.sort();
    assert_eq!(ids, vec![0, 1, 2, 3, 4]);
}

#[test]
fn test_search_substring_dedups_repeated_trigram_matches() {
    let mut idx = Index::new();
    idx.insert("/tmp/aaaa.txt", false);
    assert_eq!(idx.search_substring("aaa"), vec![0]);
}

#[test]
fn test_search_substring_case_insensitive_unicode() {
    let mut idx = Index::new();
    idx.insert("/tmp/Äpfel.txt", false);
    assert_eq!(idx.search_substring("äpf"), vec![0]);
}

#[test]
fn test_remove_entry() {
    let mut idx = sample_index();
    assert!(idx.remove("/home/alice/docs/foo.txt"));
    assert_eq!(idx.count(), 4);
    assert!(idx.search_substring("foo").is_empty());
    assert!(!idx.remove("/does/not/exist"));
}

#[test]
fn test_remove_swapped_entry_remains_searchable() {
    let mut idx = Index::new();
    idx.insert("/tmp/alpha.log", false);
    idx.insert("/tmp/bravo.log", false);
    idx.insert("/tmp/charlie.log", false);

    assert!(idx.remove("/tmp/bravo.log"));

    let ids = idx.search_substring("charlie");
    assert_eq!(ids.len(), 1);
    assert_eq!(idx.get_path(ids[0]), Some("/tmp/charlie.log"));
}

#[test]
fn test_remove_swapped_entry_can_be_removed_after_prior_delete() {
    let mut idx = Index::new();
    idx.insert("/tmp/alpha.log", false);
    idx.insert("/tmp/cobra-a.log", false);
    idx.insert("/tmp/cobra-b.log", false);
    idx.insert("/tmp/cobra-c.log", false);
    idx.insert("/tmp/cobra-d.log", false);

    assert!(idx.remove("/tmp/cobra-a.log"));

    let trigram = pack_trigram(b'o', b'b', b'r');
    let list = idx
        .trigrams
        .get(&trigram)
        .expect("cobra trigram bucket exists");
    assert!(
        list.windows(2).all(|w| w[0] < w[1]),
        "trigram posting list must remain sorted after swap_remove, got {:?}",
        list
    );
    assert!(
        idx.remove("/tmp/cobra-d.log"),
        "swapped entry should still be removable"
    );
    assert!(idx.search_substring("cobra-d").is_empty());
}

#[test]
fn test_update_metadata_no_panic() {
    let mut idx = sample_index();
    assert!(idx.update_metadata("/home/alice/docs/foo.txt", None));
    assert!(!idx.update_metadata("/does/not/exist", None));
}

#[test]
fn test_metadata_size_is_non_zero_with_entries() {
    let idx = sample_index();
    assert!(idx.metadata_size() > 0);
}

#[test]
fn test_entry_name_and_extension_offsets() {
    let mut idx = Index::new();
    idx.insert("/home/user/archive.tar.gz", false);
    let entry = &idx.entries[0];
    assert_eq!(entry.path, "/home/user/archive.tar.gz");
    assert_eq!(entry.name_off, 11);
    assert_eq!(entry.ext_off, 23);
    assert!(!entry.is_dir);
}

#[test]
fn test_insert_directory_sets_is_dir() {
    let mut idx = Index::new();
    idx.insert("/home/user/projects", true);
    assert!(idx.entries[0].is_dir);
}

fn saved_sample_index() -> Index {
    let mut idx = Index::new();
    idx.insert("/home/alice/docs/foo.txt", false);
    idx.insert("/home/alice/docs/bar.rs", false);
    idx.insert("/home/alice/docs/dir1", true);
    idx.insert("/home/bob/music/song.mp3", false);
    idx
}

#[test]
fn test_metadata_size_reported_by_saved_index() {
    let idx = saved_sample_index();
    assert!(idx.metadata_size() > 0);
}

#[test]
fn tests_test_metadata_size_reported_by_saved_index() {
    let idx = saved_sample_index();
    assert!(idx.metadata_size() > 0);
}

fn check_save_and_load_roundtrip() {
    let saved = saved_sample_index();
    let (bytes, stats) = saved.save(1_700_000_000);
    assert_eq!(stats.entry_count as usize, saved.count());
    assert_eq!(stats.bytes_written as usize, bytes.len());

    let loaded = Index::load(&bytes).unwrap();
    assert_eq!(loaded.count(), saved.count());

    for id in 0..saved.count() as u32 {
        assert_eq!(
            loaded.get_path(id),
            saved.get_path(id),
            "path mismatch at id {}",
            id
        );
        assert_eq!(loaded.entries[id as usize], saved.entries[id as usize]);
    }
    for text in ["foo", "bar", "dir", "song", "o", "home", ".rs", "zzz"] {
        assert_eq!(loaded.search_substring(text), saved.search_substring(text));
        assert_eq!(loaded.search_prefix(text), saved.search_prefix(text));
    }
    assert_eq!(loaded.by_extension("txt"), saved.by_extension("txt"));
    assert_eq!(loaded.by_extension("mp3"), saved.by_extension("mp3"));
    assert_eq!(loaded.id_by_path("/home/alice/docs/bar.rs"), Some(1));
}

#[test]
fn test_save_and_load_roundtrip() {
    check_save_and_load_roundtrip();
}

#[test]
fn tests_test_save_and_load_roundtrip() {
    check_save_and_load_roundtrip();
}

#[test]
fn test_load_corrupt_file_fails() {
    assert!(Index::load(b"NOTANINDEX").is_err());
}

#[test]
fn id_by_path_compares_the_stored_path() {
    let mut idx = Index::new();
    idx.insert("/a/one.txt", false);
    idx.insert("/a/two.txt", false);
    assert_eq!(idx.id_by_path("/a/one.txt"), Some(0));
    assert_eq!(idx.id_by_path("/a/two.txt"), Some(1));
    assert_eq!(idx.id_by_path("/a/three.txt"), None);
    assert!(idx.remove("/a/one.txt"));
    assert_eq!(idx.id_by_path("/a/one.txt"), None);
    assert_eq!(idx.id_by_path("/a/two.txt"), Some(0));
}

#[test]
fn every_live_path_is_found_after_a_remove() {
    let mut idx = Index::new();
    for p in ["/tmp/alpha.log", "/tmp/cobra-a.log", "/tmp/cobra-b.log", "/tmp/cobra-c.log", "/tmp/cobra-d.log"] {
        idx.insert(p, false);
    }
    assert!(idx.remove("/tmp/cobra-a.log"));
    assert_eq!(idx.count(), 4);
    for id in 0..idx.count() as u32 {
        let p = idx.get_path(id).unwrap().to_string();
        assert_eq!(idx.id_by_path(&p), Some(id));
    }
    assert_eq!(idx.id_by_path("/tmp/cobra-a.log"), None);
    assert!(idx.remove("/tmp/cobra-d.log"));
    assert_eq!(idx.id_by_path("/tmp/cobra-d.log"), None);
    assert_eq!(idx.search_substring("cobra").len(), 2);
}

#[test]
fn checked_load_accepts_a_saved_index_and_refuses_garbage() {
    let saved = saved_sample_index();
    let (bytes, _) = saved.save(5);
    let loaded = Index::load_checked(&bytes).unwrap();
    assert_eq!(loaded.count(), saved.count());
    assert_eq!(loaded.search_substring("o"), saved.search_substring("o"));
    assert!(Index::load_checked(b"NOTANINDEX").is_err());
    let mut bad = bytes.clone();
    let last = bad.len() - 1;
    bad[last] ^= 1;
    assert!(Index::load_checked(&bad).is_err());
}
