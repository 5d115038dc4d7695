use obsidian_mirror::reading::{newest_history, stale_history_keys, user_key_range, ReadingHistory};

#[test]
fn test_history_creation() {
    let history = ReadingHistory::new(
        "admin".to_string(),
        "test/note.md".to_string(),
        "测试笔记".to_string(),
        120,
    );

    assert_eq!(history.username, "admin");
    assert_eq!(history.note_path, "test/note.md");
    assert_eq!(history.duration, 120);

    let key = history.db_key();
    assert!(key.starts_with("admin:"));
    assert!(key.ends_with(":test/note.md"));
}

#[test]
fn history_key_holds_the_visit_time() {
    let history = ReadingHistory::new("u".to_string(), "n.md".to_string(), "N".to_string(), 5);
    let key = history.db_key();
    assert_eq!(key, format!("u:{}:n.md", history.visited_at));
    assert!(history.visited_at > 0);
}

#[test]
fn history_newest_first_with_limit_and_stale_keys() {
    let mk = |path: &str, t: u128| ReadingHistory {
        username: "u".to_string(),
        note_path: path.to_string(),
        note_title: path.to_string(),
        visited_at: t,
        duration: 1,
    };
    let list = vec![mk("a", 5), mk("b", 9), mk("c", 5), mk("d", 1)];
    let r = newest_history(&list, 3);
    let paths: Vec<&str> = r.iter().map(|h| h.note_path.as_str()).collect();
    assert_eq!(paths, vec!["b", "a", "c"]);
    let all = newest_history(&list, usize::MAX);
    assert_eq!(stale_history_keys(&all, 3), vec!["u:1:d".to_string()]);
    assert!(stale_history_keys(&all, 10).is_empty());
    assert_eq!(user_key_range("u"), ("u:".to_string(), "u;".to_string()));
}

#[test]
fn visits_carry_their_time_and_stay_with_their_user() {
    let h = obsidian_mirror::reading::ReadingHistory::new_at("u".to_string(), "a.md".to_string(), "A".to_string(), 5, 42);
    assert_eq!(h.visited_at, 42);
    let names = vec!["u".to_string(), "u:x".to_string(), "u".to_string(), "v".to_string()];
    assert_eq!(obsidian_mirror::reading::records_of_user(&names, "u"), vec![0, 2]);
    assert_eq!(obsidian_mirror::reading::records_of_user(&names, "u:x"), vec![1]);
}
