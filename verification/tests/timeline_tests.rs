use obsidian_mirror::domain::{Frontmatter, Note};
use obsidian_mirror::keyed::StrKeyMap;
use obsidian_mirror::listing::random_note_path;
use obsidian_mirror::offline::offline_entries;
use obsidian_mirror::timeline::{date_is_defined, note_date_str, timeline, timeline_checked};

const SEC: u128 = 1_000_000_000;

fn note_with(path: &str, fm: Frontmatter, mtime_secs: u128) -> Note {
    Note {
        path: path.to_string(),
        title: path.trim_end_matches(".md").to_string(),
        content_html: String::new(),
        backlinks: Vec::new(),
        tags: vec!["t".to_string()],
        toc: Vec::new(),
        mtime: mtime_secs * SEC,
        frontmatter: fm,
        outgoing_links: Vec::new(),
    }
}

fn fm(entries: Vec<(&str, Frontmatter)>) -> Frontmatter {
    Frontmatter::Mapping(entries.into_iter().map(|(k, v)| (Frontmatter::Str(k.to_string()), v)).collect())
}

fn s(x: &str) -> Frontmatter {
    Frontmatter::Str(x.to_string())
}

#[test]
fn date_from_frontmatter_is_cut_and_dashed() {
    let n = note_with("a.md", fm(vec![("date", s("2024/01/15 10:00"))]), 0);
    assert_eq!(note_date_str(&n), "2024-01-15");
    let n = note_with("b.md", fm(vec![("date", s("2024-1-5"))]), 0);
    assert_eq!(note_date_str(&n), "2024-1-5");
}

#[test]
fn date_fields_are_tried_in_order() {
    let tagged = Frontmatter::Tagged("timestamp".to_string(), Box::new(s("2023-05-06 07:08:09")));
    let n = note_with("a.md", fm(vec![("date", s("2024")), ("created_at", s("2022-02-02")), ("created", tagged)]), 0);
    assert_eq!(note_date_str(&n), "2023-05-06");
    let n = note_with("b.md", fm(vec![("date", Frontmatter::Number("20240101".to_string()))]), 86_400);
    assert_eq!(note_date_str(&n), "1970-01-02");
}

#[test]
fn date_falls_back_to_the_modification_time() {
    assert_eq!(note_date_str(&note_with("a.md", Frontmatter::Null, 0)), "1970-01-01");
    assert_eq!(note_date_str(&note_with("a.md", Frontmatter::Null, 1_700_000_000)), "2023-11-14");
    assert_eq!(note_date_str(&note_with("a.md", Frontmatter::Null, 253_402_300_800)), "+10000-01-01");
}

#[test]
fn timeline_is_latest_first() {
    let mut notes = StrKeyMap::new();
    for n in vec![
        note_with("old.md", fm(vec![("date", s("2020-01-01"))]), 0),
        note_with("new.md", fm(vec![("date", s("2024-03-01"))]), 0),
        note_with("same1.md", fm(vec![("date", s("2022-06-01"))]), 5),
        note_with("same2.md", fm(vec![("created", s("2022/06/01"))]), 7),
    ] {
        notes.insert(n.path.clone(), n);
    }
    let t = timeline(&notes);
    let got: Vec<(&str, &str, i64)> = t.iter().map(|i| (i.path.as_str(), i.date.as_str(), i.mtime)).collect();
    assert_eq!(
        got,
        vec![
            ("new.md", "2024-03-01", 0),
            ("same1.md", "2022-06-01", 5),
            ("same2.md", "2022-06-01", 7),
            ("old.md", "2020-01-01", 0)
        ]
    );
    assert_eq!(t[0].title, "new");
    assert_eq!(t[0].tags, vec!["t".to_string()]);
}

#[test]
fn random_note_path_indexes_by_nanos() {
    let mut notes = StrKeyMap::new();
    assert_eq!(random_note_path(&notes, 7), None);
    for p in ["a.md", "b.md", "c.md"] {
        notes.insert(p.to_string(), note_with(p, Frontmatter::Null, 0));
    }
    assert_eq!(random_note_path(&notes, 7).as_deref(), Some("b.md"));
    assert_eq!(random_note_path(&notes, 9).as_deref(), Some("a.md"));
}

#[test]
fn offline_entries_hold_the_plain_text_start() {
    let mut notes = StrKeyMap::new();
    let mut n = note_with("a.md", Frontmatter::Null, 42);
    n.content_html = format!("<p>Hello <b>there</b></p>{}", "x".repeat(400));
    notes.insert(n.path.clone(), n);
    let e = offline_entries(&notes);
    assert_eq!(e.len(), 1);
    assert_eq!(e[0].title, "a");
    assert_eq!(e[0].path, "a.md");
    assert_eq!(e[0].mtime, 42);
    assert_eq!(e[0].content.chars().count(), 300);
    assert!(e[0].content.starts_with("Hello there xxx"));
}

#[test]
fn timeline_checked_refuses_a_date_cut_inside_a_character() {
    let mut notes = StrKeyMap::new();
    let ok = note_with("ok.md", fm(vec![("date", s("2024年1"))]), 0);
    assert!(date_is_defined(&ok));
    assert_eq!(note_date_str(&ok), "2024年1");
    notes.insert(ok.path.clone(), ok);
    assert_eq!(timeline_checked(&notes).map(|t| t.len()), Some(1));
    let bad = note_with("bad.md", fm(vec![("date", s("2024年1月15日"))]), 0);
    assert!(!date_is_defined(&bad));
    notes.insert(bad.path.clone(), bad);
    assert!(timeline_checked(&notes).is_none());
}
