use obsidian_mirror::persistence::{write_batches, PersistenceMetadata, CURRENT_VERSION};

fn meta(commit: &str, version: u32, patterns: &[&str]) -> PersistenceMetadata {
    PersistenceMetadata {
        git_commit: commit.to_string(),
        saved_at: 0,
        version,
        ignore_patterns: patterns.iter().map(|s| s.to_string()).collect(),
    }
}

#[test]
fn metadata_matches_same_commit_version_and_patterns() {
    let pats = vec![".obsidian".to_string(), ".git".to_string()];
    assert!(meta("abc", CURRENT_VERSION, &[".obsidian", ".git"]).matches("abc", &pats));
    assert!(!meta("abc", CURRENT_VERSION, &[".obsidian", ".git"]).matches("abd", &pats));
    assert!(!meta("abc", CURRENT_VERSION + 1, &[".obsidian", ".git"]).matches("abc", &pats));
    assert!(!meta("abc", CURRENT_VERSION, &[".git", ".obsidian"]).matches("abc", &pats));
    assert!(!meta("abc", CURRENT_VERSION, &[".obsidian"]).matches("abc", &pats));
}

#[test]
fn write_batches_cover_all_records() {
    assert_eq!(write_batches(0, 500), vec![]);
    assert_eq!(write_batches(500, 500), vec![(0, 500)]);
    assert_eq!(write_batches(1201, 500), vec![(0, 500), (500, 1000), (1000, 1201)]);
}
