use plainflux::extract::extract_todos;
use plainflux::index::{CacheDb, Todo};
use plainflux::recur::{
    append_line, calculate_next_occurrence, daily_note_template, recurring_instance, Date,
};
use plainflux::carry::recurring_todo_line;

fn day(year: i32, month: u32, day: u32) -> Date {
    Date { year, month, day }
}

#[test]
fn next_occurrence_patterns() {
    // 2025-01-15 is a Wednesday.
    let d = day(2025, 1, 15);
    assert_eq!(calculate_next_occurrence("daily", &d).as_deref(), Some("2025-01-16"));
    assert_eq!(calculate_next_occurrence("Weekly", &d).as_deref(), Some("2025-01-22"));
    assert_eq!(calculate_next_occurrence("monthly", &d).as_deref(), Some("2025-02-15"));
    assert_eq!(calculate_next_occurrence("monthly", &day(2025, 12, 3)).as_deref(), Some("2026-01-03"));
    assert_eq!(calculate_next_occurrence("monthly", &day(2025, 1, 31)).as_deref(), Some("2025-03-02"));
    assert_eq!(calculate_next_occurrence("friday", &d).as_deref(), Some("2025-01-17"));
    assert_eq!(calculate_next_occurrence("wednesday", &d).as_deref(), Some("2025-01-22"));
    assert_eq!(calculate_next_occurrence("monday", &d).as_deref(), Some("2025-01-20"));
    assert_eq!(calculate_next_occurrence("daily", &day(2024, 12, 31)).as_deref(), Some("2025-01-01"));
    assert_eq!(calculate_next_occurrence("yearly", &d), None);
}

#[test]
fn recurring_line_replaces_due_and_keeps_priority() {
    let line = recurring_todo_line("Pay rent @due(2025-01-15) due:2025-01-15", Some("high"), Some("2025-01-22"));
    assert_eq!(line, "- [ ] Pay rent   !high @due(2025-01-22)");
    let line = recurring_todo_line("Call !high", Some("high"), None);
    assert_eq!(line, "- [ ] Call !high");
    let line = recurring_todo_line("Water \u{1F4C5} 2025-01-15 plants", None, Some("2025-01-16"));
    assert_eq!(line, "- [ ] Water  plants @due(2025-01-16)");
    let line = recurring_todo_line("Ping p:1", Some("high"), Some("2025-01-16"));
    assert_eq!(line, "- [ ] Ping p:1 !high @due(2025-01-16)");
    let line = recurring_todo_line("", None, Some("2025-01-16"));
    assert_eq!(line, "- [ ] @due(2025-01-16)");
}

fn read_back(line: &str) -> (Option<String>, Option<String>, bool, usize) {
    let todos = extract_todos(line);
    assert_eq!(todos.len(), 1);
    let t = &todos[0];
    (t.due_date.clone(), t.priority.clone(), t.is_completed, t.indent_level)
}

#[test]
fn carried_line_reads_back_its_due_date_and_priority() {
    let due = Some("2025-01-22");
    let new_due = Some("2025-01-22".to_string());
    let line = recurring_todo_line("@@due(x)due(2020-02-02)", None, due);
    assert_eq!(line, "- [ ] @@due(x)due(2020-02-02) @due(2025-01-22)");
    assert_eq!(read_back(&line), (new_due.clone(), None, false, 0));
    let line = recurring_todo_line("Pay @due(2020-01-01", None, due);
    assert_eq!(line, "- [ ] Pay @due(2025-01-22)");
    assert_eq!(read_back(&line), (new_due.clone(), None, false, 0));
    let line = recurring_todo_line("p@due(2020-01-01):3 !high", Some("high"), due);
    assert_eq!(line, "- [ ] p:3 !high @due(2025-01-22)");
    assert_eq!(read_back(&line), (new_due.clone(), Some("low".to_string()), false, 0));
    let line = recurring_todo_line("buy", Some("medium"), due);
    assert_eq!(line, "- [ ] buy !medium @due(2025-01-22)");
    assert!(line.ends_with("@due(2025-01-22)"));
    assert_eq!(read_back(&line), (new_due.clone(), Some("medium".to_string()), false, 0));
}

#[test]
fn weekly_todo_moves_to_next_week() {
    let todo = Todo {
        note_path: "/n/a.md".to_string(),
        line_number: 1,
        content: "Review !medium @due(2025-01-15) @repeat(weekly)".to_string(),
        is_completed: true,
        due_date: Some("2025-01-15".to_string()),
        priority: Some("medium".to_string()),
        indent_level: 0,
        parent_line: None,
        recurrence_pattern: Some("weekly".to_string()),
    };
    let d = day(2025, 1, 15);
    let note = recurring_instance(&todo, &d, None).unwrap();
    assert_eq!(
        note,
        "# 2025-01-15\n\n## Tasks\n\n- [ ] Review !medium  @repeat(weekly) @due(2025-01-22)\n"
    );
    let mut db = CacheDb::new();
    db.update_note_cache("/n/Daily Notes/2025-01-15.md", &note, &vec![]);
    let todos = db.get_incomplete_todos();
    assert_eq!(todos.len(), 1);
    assert_eq!(todos[0].due_date.as_deref(), Some("2025-01-22"));
    assert_eq!(todos[0].priority.as_deref(), Some("medium"));
    assert_eq!(todos[0].recurrence_pattern.as_deref(), Some("weekly"));
    assert_eq!(todos[0].content.matches("@due(").count(), 1);
    let again = recurring_instance(&todo, &d, Some("# x")).unwrap();
    assert_eq!(again, "# x\n- [ ] Review !medium  @repeat(weekly) @due(2025-01-22)\n");
    let unknown = Todo { recurrence_pattern: Some("yearly".to_string()), ..todo };
    assert_eq!(
        recurring_instance(&unknown, &d, Some("# x")).as_deref(),
        Some("# x\n- [ ] Review !medium @due(2025-01-15) @repeat(weekly)\n")
    );
}

#[test]
fn note_helpers() {
    assert_eq!(append_line("a\n", "b"), "a\nb\n");
    assert_eq!(append_line("", "b"), "\nb\n");
    assert_eq!(daily_note_template("2025-01-01"), "# 2025-01-01\n\n## Tasks\n\n");
}
