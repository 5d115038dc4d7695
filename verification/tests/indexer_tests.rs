use obsidian_mirror::domain::{Frontmatter, Note};
use obsidian_mirror::indexer::{BacklinkBuilder, FileIndexBuilder, TagIndexBuilder, VaultFile};
use obsidian_mirror::keyed::StrKeyMap;

fn make_note(title: &str, outgoing_links: Vec<&str>) -> Note {
    Note {
        path: format!("{}.md", title),
        title: title.to_string(),
        content_html: String::new(),
        backlinks: Vec::new(),
        tags: Vec::new(),
        toc: Vec::new(),
        mtime: 0,
        frontmatter: Frontmatter::Null,
        outgoing_links: outgoing_links.into_iter().map(|s| s.to_string()).collect(),
    }
}

#[test]
fn test_backlink_builder_full_sync() {
    let mut notes = StrKeyMap::new();
    notes.insert("A.md".to_string(), make_note("A", vec!["B"]));
    notes.insert("B.md".to_string(), make_note("B", vec!["C"]));
    notes.insert("C.md".to_string(), make_note("C", vec![]));

    let backlinks = BacklinkBuilder::build(&notes);

    assert_eq!(backlinks.get("B").map(|v| v.as_slice()), Some(&["A".to_string()][..]));
    assert_eq!(backlinks.get("C").map(|v| v.as_slice()), Some(&["B".to_string()][..]));
    assert!(backlinks.get("A").is_none(), "A 没有反向链接");
}

#[test]
fn test_backlink_builder_incremental_sync_no_loss() {
    let mut notes = StrKeyMap::new();
    notes.insert("A.md".to_string(), make_note("A", vec!["C"]));
    notes.insert("B.md".to_string(), make_note("B", vec!["C"]));
    notes.insert("C.md".to_string(), make_note("C", vec![]));

    let backlinks = BacklinkBuilder::build(&notes);

    let c_backlinks = backlinks.get("C").expect("C 应有反向链接");
    assert!(c_backlinks.contains(&"A".to_string()), "C 应有来自 A 的反向链接");
    assert!(c_backlinks.contains(&"B".to_string()), "增量同步后 C 仍应保留来自 B 的反向链接");
    assert!(backlinks.get("B").is_none(), "A 已不再链接到 B，B 的反向链接应为空");
}

#[test]
fn test_backlink_builder_empty_notes() {
    let notes = StrKeyMap::new();
    let backlinks = BacklinkBuilder::build(&notes);
    assert!(backlinks.is_empty());
}

#[test]
fn test_tag_index_builder_basic() {
    let mut notes = StrKeyMap::new();
    let mut note_a = make_note("A", vec![]);
    note_a.tags = vec!["rust".to_string(), "系统".to_string()];
    let mut note_b = make_note("B", vec![]);
    note_b.tags = vec!["rust".to_string()];
    notes.insert("A.md".to_string(), note_a);
    notes.insert("B.md".to_string(), note_b);

    let tag_index = TagIndexBuilder::build(&notes);

    let rust_notes = tag_index.get("rust").expect("应有 rust 标签");
    assert_eq!(rust_notes.len(), 2, "rust 标签应有 2 篇笔记");
    assert!(tag_index.contains_key("系统"), "系统标签应存在");
}

#[test]
fn tag_index_lists_are_sorted() {
    let mut notes = StrKeyMap::new();
    let mut b = make_note("B", vec![]);
    b.tags = vec!["t".to_string()];
    let mut a = make_note("A", vec![]);
    a.tags = vec!["t".to_string()];
    notes.insert("B.md".to_string(), b);
    notes.insert("A.md".to_string(), a);
    let tag_index = TagIndexBuilder::build(&notes);
    assert_eq!(tag_index.get("t").unwrap(), &vec!["A".to_string(), "B".to_string()]);
}

fn file(is_file: bool, ext: Option<&str>, name: &str, rel: &str) -> VaultFile {
    VaultFile {
        is_file,
        extension: ext.map(|e| e.to_string()),
        file_name: name.to_string(),
        relative_path: rel.to_string(),
    }
}

#[test]
fn file_index_keeps_assets_only() {
    let files = vec![
        file(true, Some("png"), "a.png", "img\\a.png"),
        file(true, Some("md"), "note.md", "note.md"),
        file(false, None, "img", "img"),
        file(true, None, "LICENSE", "LICENSE"),
        file(true, Some("png"), "a.png", "other/a.png"),
    ];
    let index = FileIndexBuilder::build(&files);
    assert_eq!(index.len(), 2);
    assert_eq!(index.get("a.png").unwrap(), "other/a.png");
    assert_eq!(index.get("LICENSE").unwrap(), "LICENSE");
    assert!(index.get("note.md").is_none());
}

#[test]
fn file_index_uses_forward_slashes() {
    let files = vec![file(true, Some("pdf"), "b.pdf", "docs\\sub\\b.pdf")];
    let index = FileIndexBuilder::build(&files);
    assert_eq!(index.get("b.pdf").unwrap(), "docs/sub/b.pdf");
}

#[test]
fn backlinks_hold_exactly_the_link_targets() {
    let mut notes = StrKeyMap::new();
    notes.insert("a.md".to_string(), make_note("A", vec!["C"]));
    notes.insert("b.md".to_string(), make_note("B", vec!["C"]));
    notes.insert("c.md".to_string(), make_note("C", vec![]));
    let backlinks = BacklinkBuilder::build(&notes);
    assert_eq!(backlinks.len(), 1);
    assert_eq!(backlinks.get("C").unwrap(), &vec!["A".to_string(), "B".to_string()]);
    assert!(backlinks.get("A").is_none() && backlinks.get("B").is_none());
}

#[test]
fn backlinks_repeat_a_title_once_per_link() {
    let mut notes = StrKeyMap::new();
    notes.insert("a.md".to_string(), make_note("A", vec!["C", "C"]));
    notes.insert("b.md".to_string(), make_note("B", vec!["C"]));
    let backlinks = BacklinkBuilder::build(&notes);
    assert_eq!(backlinks.get("C").unwrap(), &vec!["A".to_string(), "A".to_string(), "B".to_string()]);
}
