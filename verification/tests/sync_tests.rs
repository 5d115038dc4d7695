use obsidian_mirror::domain::{Frontmatter, Note};
use obsidian_mirror::keyed::StrKeyMap;
use obsidian_mirror::sync::{finish_sync, should_update_note, strip_html_tags, SyncHistory, SyncRecord, SYNC_FAILED, SYNC_IDLE};

fn make_note_with_mtime(path: &str, mtime: u128) -> Note {
    Note {
        path: path.to_string(),
        title: "Test".to_string(),
        content_html: String::new(),
        backlinks: Vec::new(),
        tags: Vec::new(),
        toc: Vec::new(),
        mtime,
        frontmatter: Frontmatter::Null,
        outgoing_links: Vec::new(),
    }
}

const FILE_MTIME: u128 = 1_700_000_000_123_456_789;

#[test]
fn test_should_update_note_new_file() {
    let existing: StrKeyMap<Note> = StrKeyMap::new();
    assert!(should_update_note("new/note.md", Some(FILE_MTIME), &existing), "新文件应需要更新");
}

#[test]
fn test_should_update_note_same_mtime() {
    let mut existing = StrKeyMap::new();
    existing.insert("test.md".to_string(), make_note_with_mtime("test.md", FILE_MTIME));
    assert!(!should_update_note("test.md", Some(FILE_MTIME), &existing), "mtime 相同时不应更新");
}

#[test]
fn test_should_update_note_older_mtime() {
    let old_mtime = FILE_MTIME - 1_000_000_000;
    let mut existing = StrKeyMap::new();
    existing.insert("test.md".to_string(), make_note_with_mtime("test.md", old_mtime));
    assert!(should_update_note("test.md", Some(FILE_MTIME), &existing), "文件 mtime 比记录新时应更新");
}

#[test]
fn test_should_update_note_nonexistent_path() {
    let mut existing = StrKeyMap::new();
    existing.insert("ghost.md".to_string(), make_note_with_mtime("ghost.md", FILE_MTIME));
    // the file's metadata cannot be read
    assert!(should_update_note("ghost.md", None, &existing), "无法获取 metadata 时应默认需要更新");
}

#[test]
fn newer_record_than_file_is_kept() {
    let mut existing = StrKeyMap::new();
    existing.insert("a.md".to_string(), make_note_with_mtime("a.md", FILE_MTIME + 1));
    assert!(!should_update_note("a.md", Some(FILE_MTIME), &existing));
}

#[test]
fn history_keeps_the_latest_ten() {
    let mut h = SyncHistory::new();
    for i in 0..12i64 {
        h.push(SyncRecord::completed(i, i + 1, 3, 5));
    }
    assert_eq!(h.len(), 10);
    assert_eq!(h.records()[0].started_at, 2);
    assert_eq!(h.records()[9].started_at, 11);
}

#[test]
fn plain_text_of_html() {
    assert_eq!(strip_html_tags("<p>a</p><p>b  c</p>"), "a b c");
}

#[test]
fn finished_syncs_leave_status_and_record() {
    let ok = finish_sync(&Ok(()), 10, 12, 5, 2000);
    assert_eq!(ok.status, SYNC_IDLE);
    assert_eq!(ok.last_sync, Some((12, 2000)));
    assert_eq!(ok.record.status, "completed");
    assert_eq!(ok.record.error_msg, None);
    assert_eq!((ok.record.started_at, ok.record.finished_at, ok.record.notes_count, ok.record.duration_ms), (10, 12, 5, 2000));
    let failed = finish_sync(&Err("git failed".to_string()), 10, 11, 3, 900);
    assert_eq!(failed.status, SYNC_FAILED);
    assert_eq!(failed.last_sync, None);
    assert_eq!(failed.record.status, "failed");
    assert_eq!(failed.record.error_msg.as_deref(), Some("git failed"));
    assert_eq!(failed.record.notes_count, 3);
}
