use plainflux::extract::{extract_blocks, extract_links, extract_tags, extract_todos, slugify};

#[test]
fn test_extract_links() {
    let content = "This is a [[Test Note]] and another [[Second Note]]";
    let links = extract_links(content);
    assert_eq!(links.len(), 2);
    assert_eq!(links[0], "Test Note");
    assert_eq!(links[1], "Second Note");
}

#[test]
fn test_extract_links_with_block_references() {
    let content = "Link to [[Note#heading-slug]] and [[Another Note#section]]";
    let links = extract_links(content);
    assert_eq!(links.len(), 2);
    assert_eq!(links[0], "Note#heading-slug");
    assert_eq!(links[1], "Another Note#section");
}

#[test]
fn test_extract_tags() {
    let content = "This has #tag1 and #tag2 tags";
    let tags = extract_tags(content);
    assert_eq!(tags.len(), 2);
    assert_eq!(tags[0], "tag1");
    assert_eq!(tags[1], "tag2");
}

#[test]
fn links_keep_order_and_fragment() {
    let links = extract_links("see [[A]] then [[B#frag]] and [[A]] again");
    assert_eq!(links, vec!["A".to_string(), "B#frag".to_string(), "A".to_string()]);
}

#[test]
fn links_edge_cases() {
    assert!(extract_links("").is_empty());
    assert!(extract_links("[[]] and [[open").is_empty());
    assert_eq!(extract_links("[[[a]]"), vec!["[a".to_string()]);
    assert_eq!(extract_links("[[a]b]] [[c]]"), vec!["c".to_string()]);
    assert_eq!(extract_links("[[multi\nline]]"), vec!["multi\nline".to_string()]);
}

#[test]
fn tags_in_order() {
    let tags = extract_tags("#alpha text #beta and #alpha");
    assert_eq!(tags, vec!["alpha".to_string(), "beta".to_string(), "alpha".to_string()]);
    assert!(extract_tags("# heading and #").is_empty());
    assert_eq!(extract_tags("a#b_c-d ##e"), vec!["b_c".to_string(), "e".to_string()]);
}

#[test]
fn nested_todos_with_metadata() {
    let todos = extract_todos("- [ ] Buy milk\n  - [x] Sub-task !high @due(2025-01-15)");
    assert_eq!(todos.len(), 2);
    assert_eq!(todos[0].line_number, 1);
    assert_eq!(todos[0].content, "Buy milk");
    assert_eq!(todos[0].indent_level, 0);
    assert!(!todos[0].is_completed);
    assert_eq!(todos[0].parent_line, None);
    assert_eq!(todos[1].line_number, 2);
    assert_eq!(todos[1].indent_level, 1);
    assert!(todos[1].is_completed);
    assert_eq!(todos[1].priority.as_deref(), Some("high"));
    assert_eq!(todos[1].due_date.as_deref(), Some("2025-01-15"));
    assert_eq!(todos[1].parent_line, Some(1));
    assert_eq!(todos[1].content, "Sub-task !high @due(2025-01-15)");
}

#[test]
fn todo_metadata_forms() {
    let todos = extract_todos(
        "* [X] a due:2024-02-03 p:2\n- [ ] b \u{1F4C5} 2024-05-06 p:3 @every(Monday)\n- [ ] c @repeat(Weekly) !low",
    );
    assert_eq!(todos.len(), 3);
    assert!(todos[0].is_completed);
    assert_eq!(todos[0].due_date.as_deref(), Some("2024-02-03"));
    assert_eq!(todos[0].priority.as_deref(), Some("medium"));
    assert_eq!(todos[1].due_date.as_deref(), Some("2024-05-06"));
    assert_eq!(todos[1].priority.as_deref(), Some("low"));
    assert_eq!(todos[1].recurrence_pattern.as_deref(), Some("monday"));
    assert_eq!(todos[2].recurrence_pattern.as_deref(), Some("weekly"));
    assert_eq!(todos[2].priority.as_deref(), Some("low"));
    assert_eq!(todos[2].due_date, None);
}

#[test]
fn malformed_checkboxes_are_skipped() {
    let todos = extract_todos("- [ task\n- [y] no\n- [ ]\nplain\n- [ ]  \n");
    assert_eq!(todos.len(), 1);
    assert_eq!(todos[0].line_number, 5);
    assert_eq!(todos[0].content, "");
}

#[test]
fn parent_is_nearest_shallower_todo() {
    let text = "- [ ] a\n  - [ ] b\n    - [ ] c\n  - [ ] d\n- [ ] e\n  - [ ] f";
    let todos = extract_todos(text);
    let parents: Vec<Option<usize>> = todos.iter().map(|t| t.parent_line).collect();
    assert_eq!(parents, vec![None, Some(1), Some(2), Some(1), None, Some(5)]);
    let levels: Vec<usize> = todos.iter().map(|t| t.indent_level).collect();
    assert_eq!(levels, vec![0, 1, 2, 1, 0, 1]);
}

#[test]
fn heading_slug() {
    assert_eq!(slugify("Hello, World! "), "hello-world");
    let blocks = extract_blocks("## Hello, World! ");
    assert_eq!(blocks.len(), 1);
    assert_eq!(blocks[0].block_id, "hello-world");
    assert_eq!(blocks[0].content, "Hello, World!");
    assert_eq!(blocks[0].line_number, 1);
}

#[test]
fn headings_need_space_and_at_most_six_marks() {
    let blocks = extract_blocks("#tag\n####### seven\n# One\r\ntext\n###### Six  Words --here");
    let ids: Vec<&str> = blocks.iter().map(|b| b.block_id.as_str()).collect();
    assert_eq!(ids, vec!["one", "six-words-here"]);
    let lines: Vec<usize> = blocks.iter().map(|b| b.line_number).collect();
    assert_eq!(lines, vec![3, 5]);
}

#[test]
fn indent_counts_utf8_length_of_leading_whitespace() {
    let todos = extract_todos("\u{3000}- [ ] wide\n\t- [ ] tab\n    - [ ] four");
    let levels: Vec<usize> = todos.iter().map(|t| t.indent_level).collect();
    assert_eq!(levels, vec![1, 0, 2]);
}
