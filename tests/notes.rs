use plainflux::error::AppError;
use plainflux::index::Link;
use plainflux::notes::{
    delete_folder, extract_block_section, is_safe_folder, list_notes, extract_search_snippets, find_note_by_name, global_graph, in_reserved_folder,
    links_to_name, local_graph,
    toggle_line_in_text, validate_path_security, NoteMetadata,
};
use plainflux::resolve::split_block_ref;

fn meta(path: &str, title: &str) -> NoteMetadata {
    NoteMetadata {
        path: path.to_string(),
        title: title.to_string(),
        last_modified: 0,
        relative_path: String::new(),
        folder: String::new(),
    }
}

fn link(a: &str, b: &str) -> Link {
    Link { from_note: a.to_string(), to_note: b.to_string() }
}

#[test]
fn global_graph_keeps_linked_notes() {
    let notes = vec![meta("/n/a.md", "a"), meta("/n/b.md", "b"), meta("/n/c.md", "c")];
    let links = vec![link("/n/a.md", "/n/c.md")];
    let g = global_graph(&links, &notes);
    let ids: Vec<&str> = g.nodes.iter().map(|n| n.id.as_str()).collect();
    assert_eq!(ids, vec!["/n/a.md", "/n/c.md"]);
    assert_eq!(g.nodes[1].label, "c");
    assert_eq!(g.edges.len(), 1);
    assert_eq!(g.edges[0].from, "/n/a.md");
    assert_eq!(g.edges[0].to, "/n/c.md");
}

#[test]
fn local_graph_includes_center() {
    let notes = vec![meta("/n/a.md", "a"), meta("/n/b.md", "b")];
    let g = local_graph(&"/n/b.md".to_string(), &vec![], &notes);
    assert_eq!(g.nodes.len(), 1);
    assert_eq!(g.nodes[0].title, "b");
    assert!(g.edges.is_empty());
}

#[test]
fn path_checks() {
    assert!(validate_path_security("/notes/a/b.md", "/notes").is_ok());
    assert!(validate_path_security("/notes", "/notes").is_ok());
    assert!(validate_path_security("/notesx/a.md", "/notes").is_err());
    assert!(validate_path_security("/other/a.md", "/notes").is_err());
    match validate_path_security("/x", "/notes") {
        Err(e) => assert_eq!(e.message(), "Invalid input: Path is outside the notes directory"),
        Ok(()) => panic!("expected an error"),
    }
}

#[test]
fn folder_listing_is_relative() {
    let files = vec!["/n/P/a.md".to_string(), "/elsewhere/b.md".to_string(), "/n/P/q/c.md".to_string()];
    let rel = delete_folder("P", true, true, &files, "/n").unwrap();
    assert_eq!(rel, vec!["P/a.md".to_string(), "P/q/c.md".to_string()]);
    assert_eq!(delete_folder("P", false, false, &files, "/n"), Err("Folder does not exist".to_string()));
    assert_eq!(delete_folder("P", true, false, &files, "/n"), Err("Path is not a folder".to_string()));
}

#[test]
fn error_messages() {
    assert_eq!(AppError::NotFound("x".to_string()).message(), "Not found: x");
    assert_eq!(AppError::Io("disk".to_string()).message(), "IO error: disk");
}

#[test]
fn block_section_stops_at_same_level() {
    let text = "# Top\nintro\n## A\na1\n### A.1\ndeep\n## B\nb1\n";
    assert_eq!(extract_block_section(text, 3).as_deref(), Some("## A\na1\n### A.1\ndeep"));
    assert_eq!(extract_block_section(text, 7).as_deref(), Some("## B\nb1"));
    assert_eq!(extract_block_section(text, 1).as_deref(), Some(text.trim_end()));
    assert_eq!(extract_block_section(text, 9), None);
    assert_eq!(extract_block_section(text, 0), None);
}

#[test]
fn block_reference_split() {
    assert_eq!(split_block_ref("Note#sec#x"), ("Note".to_string(), Some("sec#x".to_string())));
    assert_eq!(split_block_ref("Note"), ("Note".to_string(), None));
}

#[test]
fn toggle_rewrites_only_the_line() {
    let text = "# T\n- [ ] a\n* [X] b\n";
    assert_eq!(toggle_line_in_text(text, 2, true).as_deref(), Some("# T\n- [x] a\n* [X] b\n"));
    assert_eq!(toggle_line_in_text(text, 3, false).as_deref(), Some("# T\n- [ ] a\n* [ ] b\n"));
    assert_eq!(toggle_line_in_text("- [ ] a", 1, true).as_deref(), Some("- [x] a"));
    assert_eq!(toggle_line_in_text(text, 4, true), None);
}

#[test]
fn reserved_folders_are_recognised() {
    assert!(in_reserved_folder(".plainflux/settings.md"));
    assert!(in_reserved_folder("a/images/x.md"));
    assert!(in_reserved_folder(".git"));
    assert!(!in_reserved_folder("imagesx/a.md"));
    assert!(!in_reserved_folder("notes/a.md"));
}

#[test]
fn notes_found_by_title_ignoring_case() {
    let notes = vec![meta("/n/Alpha.md", "Alpha"), meta("/n/b.md", "Beta.md")];
    assert_eq!(find_note_by_name("alpha", &notes), Some("/n/Alpha.md".to_string()));
    assert_eq!(find_note_by_name("ALPHA.md", &notes), Some("/n/Alpha.md".to_string()));
    assert_eq!(find_note_by_name("beta.MD", &notes), Some("/n/b.md".to_string()));
    assert_eq!(find_note_by_name("gamma", &notes), None);
}

#[test]
fn mentions_of_new_note() {
    assert!(links_to_name("see [[Plan]] now", "Plan.md"));
    assert!(links_to_name("see [[Plan.md]] now", "Plan"));
    assert!(!links_to_name("see [[plan]] now", "Plan"));
    assert!(!links_to_name("see [[Plan#x]]", "Plan"));
}

#[test]
fn search_snippets_with_context() {
    let found = extract_search_snippets("# Search\n\nalpha banana\n", "banana").unwrap();
    assert_eq!(found.len(), 1);
    assert_eq!(found[0].line_number, 3);
    assert_eq!(found[0].text, "alpha banana");
    assert_eq!(found[0].match_start, 6);
    assert_eq!(found[0].match_length, 6);

    let line = format!("{}KEY{}", "x".repeat(60), "y".repeat(60));
    let found = extract_search_snippets(&line, "key").unwrap();
    assert_eq!(found.len(), 1);
    assert_eq!(found[0].text, format!("...{}KEY{}...", "x".repeat(50), "y".repeat(50)));
    assert_eq!(found[0].match_start, 53);

    let found = extract_search_snippets("aaaa", "aa").unwrap();
    let starts: Vec<usize> = found.iter().map(|s| s.match_start).collect();
    assert_eq!(starts, vec![0, 2]);
}

#[test]
fn folder_delete_rejects_root_and_traversal_paths() {
    let base = "/tmp/notes";
    let files = vec![format!("{base}/Projects/Task.md")];
    let preview = delete_folder("Projects", true, true, &files, base).expect("expected valid folder preview");
    assert!(
        preview.iter().any(|path| path.ends_with("Projects/Task.md")),
        "expected preview to include note in target folder"
    );
    assert!(delete_folder("", true, true, &files, base).is_err(), "empty path must not be allowed for delete preview");
    assert!(!is_safe_folder(""), "empty path must not be allowed for delete");
    assert!(delete_folder("../outside", true, true, &files, base).is_err(), "path traversal must be rejected");
    assert!(!is_safe_folder("../outside"), "path traversal must be rejected");
    let absolute_folder = format!("{base}/Absolute");
    assert!(
        delete_folder(&absolute_folder, true, true, &files, base).is_err(),
        "absolute folder paths must be rejected"
    );
    assert!(!is_safe_folder(&absolute_folder), "absolute folder paths must be rejected");
    assert!(!is_safe_folder("a/../b"));
    assert!(is_safe_folder("a/..b/c"));
}

#[test]
fn lone_carriage_return_stays_on_last_line() {
    assert_eq!(toggle_line_in_text("- [ ] a\r", 1, true).as_deref(), Some("- [x] a\r"));
    assert_eq!(toggle_line_in_text("- [ ] a\r\n", 1, true).as_deref(), Some("- [x] a\n"));
}

#[test]
fn listing_sorted_by_folder_then_title() {
    let files = vec![
        ("/n/b/Zed.md".to_string(), 3),
        ("/n/Top.md".to_string(), 1),
        ("/n/a/Beta.md".to_string(), 2),
        ("/n/a/Alpha.md".to_string(), 4),
        ("/n/images/Pic.md".to_string(), 5),
        ("/n/.plainflux/s.md".to_string(), 6),
    ];
    let notes = list_notes(&files, "/n");
    let rows: Vec<(&str, &str, &str)> =
        notes.iter().map(|n| (n.folder.as_str(), n.title.as_str(), n.relative_path.as_str())).collect();
    assert_eq!(
        rows,
        vec![("", "Top", "Top.md"), ("a", "Alpha", "a/Alpha.md"), ("a", "Beta", "a/Beta.md"), ("b", "Zed", "b/Zed.md")]
    );
    assert_eq!(notes[1].last_modified, 4);
}

#[test]
fn listing_keeps_walk_order_for_equal_keys() {
    let files = vec![
        ("/outside/b/Same.md".to_string(), 1),
        ("/elsewhere/Same.md".to_string(), 2),
        ("/third/Same.md".to_string(), 3),
    ];
    let notes = list_notes(&files, "/n");
    let times: Vec<i64> = notes.iter().map(|n| n.last_modified).collect();
    assert_eq!(times, vec![1, 2, 3]);
}
