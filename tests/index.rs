use plainflux::index::{CacheDb, NoteOnDisk};
use plainflux::resolve::{resolve_note_link, title_from_path};

fn note(path: &str, seconds: i64, content: Option<&str>) -> NoteOnDisk {
    NoteOnDisk {
        path: path.to_string(),
        title: title_from_path(path),
        seconds,
        nanos: 0,
        content: content.map(|c| c.to_string()),
    }
}

#[test]
fn cache_and_fts_track_move_and_rename_without_stale_paths() {
    let mut cache_db = CacheDb::new();
    let notes_dir = "/notes";
    let original_path = "/notes/Drafts/Plan.md".to_string();
    let original_content = "# Plan\n\nkeywordalpha\n";
    let original_title = title_from_path(&original_path);
    let tree = vec![original_path.clone()];
    cache_db.update_note_cache_with_fts(&original_path, &original_title, original_content, &tree);
    cache_db.set_cached_mtime(&original_path, 1, 0);

    let initial_results = cache_db.search_notes_fts("keywordalpha");
    assert!(initial_results.contains(&original_path), "fts should contain original note path");

    let moved_path = format!("{}/Archive/Plan.md", notes_dir);
    cache_db.remove_stale_entries(std::slice::from_ref(&original_path));
    let moved_title = title_from_path(&moved_path);
    let tree = vec![moved_path.clone()];
    cache_db.update_note_cache_with_fts(&moved_path, &moved_title, original_content, &tree);
    cache_db.set_cached_mtime(&moved_path, 2, 0);

    let moved_results = cache_db.search_notes_fts("keywordalpha");
    assert!(moved_results.contains(&moved_path), "fts should contain moved note path");
    assert!(!moved_results.contains(&original_path), "fts should not contain stale original path");

    let renamed_path = format!("{}/Archive/Renamed Plan.md", notes_dir);
    cache_db.remove_stale_entries(std::slice::from_ref(&moved_path));
    let renamed_title = title_from_path(&renamed_path);
    let tree = vec![renamed_path.clone()];
    cache_db.update_note_cache_with_fts(&renamed_path, &renamed_title, original_content, &tree);
    cache_db.set_cached_mtime(&renamed_path, 3, 0);

    let renamed_results = cache_db.search_notes_fts("keywordalpha");
    assert!(renamed_results.contains(&renamed_path), "fts should contain renamed note path");
    assert!(!renamed_results.contains(&moved_path), "fts should not contain stale moved path");

    let cached_paths = cache_db.get_all_cached_paths();
    assert!(cached_paths.contains(&renamed_path), "metadata should include renamed path");
    assert!(!cached_paths.contains(&original_path), "metadata should not include original path");
    assert!(!cached_paths.contains(&moved_path), "metadata should not include moved path");
}

#[test]
fn enhanced_search_reflects_content_updates_and_deletions() {
    let mut cache_db = CacheDb::new();
    let note_path = "/notes/Search.md".to_string();
    let tree = vec![note_path.clone()];
    cache_db.update_note_cache_with_fts(&note_path, "Search", "# Search\n\nalpha banana\n", &tree);
    cache_db.set_cached_mtime(&note_path, 1, 0);
    assert!(cache_db.search_notes_fts("banana").contains(&note_path));

    cache_db.update_note_cache_with_fts(&note_path, "Search", "# Search\n\nalpha carrot\n", &tree);
    cache_db.set_cached_mtime(&note_path, 2, 0);
    assert!(cache_db.search_notes_fts("banana").is_empty());
    assert!(cache_db.search_notes_fts("carrot").contains(&note_path));

    cache_db.remove_stale_entries(std::slice::from_ref(&note_path));
    assert!(cache_db.search_notes_fts("carrot").is_empty());
}

#[test]
fn reindex_twice_keeps_rows_unique() {
    let tree = vec!["/n/A.md".to_string(), "/n/B.md".to_string()];
    let text = "[[B]] [[B#part]] #t #t\n- [ ] one\n# Head\n# Head";
    let mut db = CacheDb::new();
    db.update_note_cache_with_fts("/n/A.md", "A", text, &tree);
    let links1 = db.get_backlinks("/n/B.md");
    let tags1 = db.get_notes_by_tag("t");
    let todos1 = db.get_all_todos().len();
    let blocks1 = db.get_blocks_for_note("/n/A.md");
    db.update_note_cache_with_fts("/n/A.md", "A", text, &tree);
    assert_eq!(db.get_backlinks("/n/B.md"), links1);
    assert_eq!(links1, vec!["/n/A.md".to_string()]);
    assert_eq!(db.get_notes_by_tag("t"), tags1);
    assert_eq!(tags1.len(), 1);
    assert_eq!(db.get_all_todos().len(), todos1);
    assert_eq!(todos1, 1);
    assert_eq!(db.get_blocks_for_note("/n/A.md"), blocks1);
    assert_eq!(blocks1.len(), 1);
    assert_eq!(db.get_block("/n/A.md", "head"), Some((4, "Head".to_string())));
}

#[test]
fn resolution_strips_fragment_and_extension_ignoring_case() {
    let tree = vec!["/n/x/other.md".to_string(), "/n/Target Note.md".to_string()];
    assert_eq!(resolve_note_link("target note", &tree), Some("/n/Target Note.md".to_string()));
    assert_eq!(resolve_note_link("Target Note#sec", &tree), None);
    assert_eq!(resolve_note_link("TARGET NOTE.md", &tree), Some("/n/Target Note.md".to_string()));
    assert_eq!(resolve_note_link("missing", &tree), None);
    let mut db = CacheDb::new();
    db.update_note_cache("/n/x/other.md", "[[Target Note#sec]] [[missing]]", &tree);
    let links = db.get_links_for_note("/n/x/other.md");
    assert_eq!(links.len(), 1);
    assert_eq!(links[0].to_note, "/n/Target Note.md");
}

#[test]
fn toggle_flips_only_completion() {
    let mut db = CacheDb::new();
    db.update_note_cache("/n/a.md", "x\n- [ ] task !high", &vec![]);
    assert_eq!(db.toggle_todo("/n/a.md", 2), Some(true));
    let t = db.get_todo("/n/a.md", 2).unwrap();
    assert!(t.is_completed);
    assert_eq!(t.priority.as_deref(), Some("high"));
    assert_eq!(db.get_incomplete_todos().len(), 0);
    assert_eq!(db.toggle_todo("/n/a.md", 2), Some(false));
    assert_eq!(db.toggle_todo("/n/a.md", 1), None);
    assert_eq!(db.get_incomplete_todos().len(), 1);
}

#[test]
fn second_sync_touches_nothing() {
    let mut db = CacheDb::new();
    let tree = vec!["/n/a.md".to_string(), "/n/b.md".to_string()];
    let files = vec![note("/n/a.md", 10, Some("[[b]] #x")), note("/n/b.md", 11, Some("- [ ] y"))];
    assert_eq!(db.sync_pass(&files, &tree), 2);
    assert_eq!(db.sync_pass(&files, &tree), 0);
    let older = vec![note("/n/a.md", 9, Some("#z")), note("/n/b.md", 11, Some("- [ ] y"))];
    assert_eq!(db.sync_pass(&older, &tree), 1);
    assert_eq!(db.get_all_tags(), vec!["z".to_string()]);
}

#[test]
fn unreadable_file_is_retried() {
    let mut db = CacheDb::new();
    let tree = vec!["/n/a.md".to_string()];
    assert_eq!(db.sync_pass(&vec![note("/n/a.md", 1, None)], &tree), 0);
    assert_eq!(db.get_cached_mtime("/n/a.md"), None);
    assert_eq!(db.sync_pass(&vec![note("/n/a.md", 1, Some("#t"))], &tree), 1);
    assert_eq!(db.get_cached_mtime("/n/a.md"), Some((1, 0)));
}

#[test]
fn deleted_file_is_reconciled() {
    let mut db = CacheDb::new();
    let tree = vec!["/n/a.md".to_string(), "/n/b.md".to_string()];
    let files = vec![note("/n/a.md", 1, Some("[[b]] #t\n- [ ] x\n# H")), note("/n/b.md", 1, Some("[[a]]"))];
    db.sync_pass(&files, &tree);
    let remaining = vec![note("/n/b.md", 1, Some("[[a]]"))];
    assert_eq!(db.sync_pass(&remaining, &tree), 0);
    assert!(db.get_backlinks("/n/b.md").is_empty());
    assert!(db.get_notes_by_tag("t").is_empty());
    assert!(db.get_all_todos().is_empty());
    assert!(db.get_blocks_for_note("/n/a.md").is_empty());
    assert_eq!(db.get_cached_mtime("/n/a.md"), None);
    assert_eq!(db.get_all_cached_paths(), vec!["/n/b.md".to_string()]);
}

#[test]
fn force_rebuild_reindexes_everything() {
    let mut db = CacheDb::new();
    let tree = vec!["/n/a.md".to_string()];
    let files = vec![note("/n/a.md", 1, Some("#t"))];
    db.sync_pass(&files, &tree);
    db.clear_all_metadata();
    assert_eq!(db.get_notes_by_tag("t"), vec!["/n/a.md".to_string()]);
    assert_eq!(db.sync_pass(&files, &tree), 1);
}

#[test]
fn todos_and_tags_come_sorted() {
    let mut db = CacheDb::new();
    db.update_note_cache("/n/b.md", "- [x] b1\n- [ ] b2 #zeta", &vec![]);
    db.update_note_cache("/n/a.md", "- [ ] a1 #alpha\n- [x] a2 #zeta\n- [ ] a3", &vec![]);
    let all: Vec<(String, usize)> =
        db.get_all_todos().iter().map(|t| (t.note_path.clone(), t.line_number)).collect();
    assert_eq!(
        all,
        vec![
            ("/n/a.md".to_string(), 1),
            ("/n/a.md".to_string(), 3),
            ("/n/a.md".to_string(), 2),
            ("/n/b.md".to_string(), 2),
            ("/n/b.md".to_string(), 1),
        ]
    );
    let open: Vec<usize> = db.get_incomplete_todos().iter().map(|t| t.line_number).collect();
    assert_eq!(open, vec![1, 3, 2]);
    assert_eq!(db.get_all_tags(), vec!["alpha".to_string(), "zeta".to_string()]);
}

#[test]
fn removing_a_note_keeps_its_stamp_until_sync() {
    let mut db = CacheDb::new();
    let tree = vec!["/n/a.md".to_string()];
    db.sync_pass(&vec![note("/n/a.md", 5, Some("#t\n- [ ] x"))], &tree);
    db.remove_note("/n/a.md");
    assert!(db.get_notes_by_tag("t").is_empty());
    assert!(db.get_all_todos().is_empty());
    assert_eq!(db.get_cached_mtime("/n/a.md"), Some((5, 0)));
    db.sync_pass(&vec![], &vec![]);
    assert_eq!(db.get_cached_mtime("/n/a.md"), None);
}

#[test]
fn search_ranks_by_occurrences() {
    let mut db = CacheDb::new();
    let tree: Vec<String> = vec![];
    db.update_note_cache_with_fts("/n/one.md", "one", "Apple pie", &tree);
    db.update_note_cache_with_fts("/n/three.md", "Apple", "apple APPLE", &tree);
    db.update_note_cache_with_fts("/n/none.md", "none", "pear", &tree);
    assert_eq!(db.search_notes_fts("apple"), vec!["/n/three.md".to_string(), "/n/one.md".to_string()]);
    let hits = db.search_ranked("APPLE");
    assert_eq!(hits[0].score, 3);
    assert_eq!(hits[1].score, 1);
    assert!(db.search_notes_fts("").is_empty());
}

#[test]
fn search_terms_need_not_be_adjacent() {
    let mut db = CacheDb::new();
    let tree: Vec<String> = vec![];
    db.update_note_cache_with_fts("/n/a.md", "Fruit", "alpha and then carrot", &tree);
    db.update_note_cache_with_fts("/n/b.md", "Other", "alpha only", &tree);
    assert_eq!(db.search_notes_fts("Alpha  CARROT"), vec!["/n/a.md".to_string()]);
    assert_eq!(db.search_notes_fts("fruit carrot"), vec!["/n/a.md".to_string()]);
    assert!(db.search_notes_fts("   ").is_empty());
}
