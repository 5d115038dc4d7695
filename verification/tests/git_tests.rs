use obsidian_mirror::git::{
    commit_info_for, history_list_target_of, history_target_of, CommitInfo, GitClient, SyncStep,
};

#[test]
fn history_lines_are_split_into_four_fields() {
    let out = "0123456789abcdef0123456789abcdef01234567|a@x.org|2026-04-15 10:00:00 +0800|fix: a|b\n\nbad line\n";
    let commits = GitClient::parse_file_history(out);
    assert_eq!(commits.len(), 1);
    let c = &commits[0];
    assert_eq!(c.hash, "0123456789abcdef0123456789abcdef01234567");
    assert_eq!(c.hash_short, "01234567");
    assert_eq!(c.author, "a@x.org");
    assert_eq!(c.date, "2026-04-15 10:00:00 +0800");
    assert_eq!(c.subject, "fix: a|b");
}

#[test]
fn history_fields_are_trimmed_and_short_hash_kept() {
    let commits = GitClient::parse_file_history(" abc | me | d | s \r\n");
    assert_eq!(commits.len(), 1);
    assert_eq!(commits[0].hash, "abc");
    assert_eq!(commits[0].hash_short, "abc");
    assert_eq!(commits[0].author, "me");
    assert_eq!(commits[0].subject, "s");
}

#[test]
fn output_paths_skip_empty_lines() {
    let paths = GitClient::output_paths("a.md\n\ndir/b.md\n");
    assert_eq!(paths, vec!["a.md".to_string(), "dir/b.md".to_string()]);
    assert!(GitClient::output_paths("").is_empty());
}

#[test]
fn revision_arguments() {
    assert_eq!(GitClient::show_spec("abc123", "notes/a.md"), "abc123:notes/a.md");
    assert_eq!(GitClient::parent_rev("abc123"), "abc123~1");
}

#[test]
fn sync_steps() {
    assert_eq!(GitClient::sync_step(false, false, false), SyncStep::Clone);
    assert_eq!(GitClient::sync_step(true, true, true), SyncStep::Pull);
    assert_eq!(GitClient::sync_step(true, false, true), SyncStep::Refuse);
    assert_eq!(GitClient::sync_step(true, false, false), SyncStep::CleanThenClone);
}

#[test]
fn history_requests_are_split_and_checked() {
    assert_eq!(
        history_target_of("dir%2Fa%5Cb.md/at/abc123", "/at/"),
        Some(("dir/a/b.md".to_string(), "abc123".to_string()))
    );
    assert_eq!(
        history_target_of("x/at/y.md/at/DEADbeef", "/at/"),
        Some(("x/at/y.md".to_string(), "DEADbeef".to_string()))
    );
    assert_eq!(history_target_of("a.md/at/xyz1", "/at/"), None);
    assert_eq!(history_target_of("a.md/at/abc", "/at/"), None);
    assert_eq!(history_target_of("/at/abcd", "/at/"), None);
    assert_eq!(history_target_of("a.md/diff/abcd", "/at/"), None);
    assert_eq!(history_target_of("a.md/diff/abcd", "/diff/"), Some(("a.md".to_string(), "abcd".to_string())));
    assert_eq!(history_list_target_of("n%20a.md/history"), Some("n a.md".to_string()));
    assert_eq!(history_list_target_of("/history"), None);
    assert_eq!(history_list_target_of("a.md"), None);
}

#[test]
fn commit_info_matches_by_prefix_either_way() {
    let c = |h: &str, s: &str| CommitInfo {
        hash: h.to_string(),
        hash_short: h.chars().take(8).collect(),
        author: "a@x".to_string(),
        date: "2024-01-01".to_string(),
        subject: s.to_string(),
    };
    let commits = vec![c("1111aaaa2222", "first"), c("3333bbbb4444", "second")];
    assert_eq!(commit_info_for(&commits, "3333bb").subject, "second");
    assert_eq!(commit_info_for(&commits, "1111aaaa2222ffff").subject, "first");
    let unknown = commit_info_for(&commits, "abcdef0123456789");
    assert_eq!((unknown.hash.as_str(), unknown.hash_short.as_str(), unknown.subject.as_str()), ("abcdef0123456789", "abcdef01", ""));
}
