use obsidian_mirror::domain::{Frontmatter, Note};
use obsidian_mirror::keyed::StrKeyMap;
use obsidian_mirror::listing::{
    lookup_tag, note_stats, orphan_list, recent_cutoff, recent_notes, tag_notes, TagLookup, DAY_NANOS,
};

const SEC: u128 = 1_000_000_000;

fn note(title: &str, path: &str, links: &[&str], mtime_secs: u128) -> Note {
    Note {
        path: path.to_string(),
        title: title.to_string(),
        content_html: String::new(),
        backlinks: Vec::new(),
        tags: Vec::new(),
        toc: Vec::new(),
        mtime: mtime_secs * SEC,
        frontmatter: Frontmatter::Null,
        outgoing_links: links.iter().map(|s| s.to_string()).collect(),
    }
}

fn notes_of(list: Vec<Note>) -> StrKeyMap<Note> {
    let mut m = StrKeyMap::new();
    for n in list {
        m.insert(n.path.clone(), n);
    }
    m
}

fn pairs(v: &[(String, String)]) -> Vec<(&str, &str)> {
    v.iter().map(|(a, b)| (a.as_str(), b.as_str())).collect()
}

#[test]
fn test_orphans_empty_library() {
    let notes: StrKeyMap<Note> = StrKeyMap::new();
    let backlinks: StrKeyMap<Vec<String>> = StrKeyMap::new();
    assert!(orphan_list(&notes, &backlinks).is_empty());
}

#[test]
fn orphans_are_unlinked_both_ways_and_sorted_by_title() {
    let notes = notes_of(vec![
        note("Zeta", "z.md", &[], 0),
        note("Alpha", "a.md", &["Beta"], 0),
        note("Beta", "b.md", &[], 0),
        note("Gamma", "g.md", &[], 0),
    ]);
    let mut backlinks: StrKeyMap<Vec<String>> = StrKeyMap::new();
    backlinks.insert("Beta".to_string(), vec!["Alpha".to_string()]);
    let r = orphan_list(&notes, &backlinks);
    assert_eq!(pairs(&r), vec![("Gamma", "g.md"), ("Zeta", "z.md")]);
}

#[test]
fn orphans_with_equal_titles_keep_note_order() {
    let notes = notes_of(vec![note("Same", "second.md", &[], 0), note("Same", "first.md", &[], 0)]);
    let backlinks: StrKeyMap<Vec<String>> = StrKeyMap::new();
    let r = orphan_list(&notes, &backlinks);
    assert_eq!(pairs(&r), vec![("Same", "second.md"), ("Same", "first.md")]);
}

fn indexes() -> (StrKeyMap<Vec<String>>, StrKeyMap<String>) {
    let mut tags: StrKeyMap<Vec<String>> = StrKeyMap::new();
    tags.insert(
        "rust".to_string(),
        vec!["Web".to_string(), "Gone".to_string(), "Async".to_string()],
    );
    tags.insert("中文".to_string(), vec!["Web".to_string()]);
    let mut links: StrKeyMap<String> = StrKeyMap::new();
    links.insert("Web".to_string(), "web.md".to_string());
    links.insert("Async".to_string(), "dir/async.md".to_string());
    (tags, links)
}

#[test]
fn tag_notes_resolves_titles_and_sorts_them() {
    let (tags, links) = indexes();
    let r = tag_notes(&tags, &links, "rust").expect("known tag");
    assert_eq!(pairs(&r), vec![("Async", "dir/async.md"), ("Web", "web.md")]);
    assert!(tag_notes(&tags, &links, "python").is_none());
}

#[test]
fn lookup_tag_decodes_the_name() {
    let (tags, links) = indexes();
    match lookup_tag(&tags, &links, "%E4%B8%AD%E6%96%87") {
        TagLookup::Found(name, list) => {
            assert_eq!(name, "中文");
            assert_eq!(pairs(&list), vec![("Web", "web.md")]);
        },
        _ => panic!("the tag exists"),
    }
    match lookup_tag(&tags, &links, "py%74hon") {
        TagLookup::NotFound(name) => assert_eq!(name, "python"),
        _ => panic!("the tag does not exist"),
    }
    assert!(matches!(lookup_tag(&tags, &links, "%FF"), TagLookup::BadName));
}

#[test]
fn recent_cutoff_clamps_days() {
    let now = 1000 * DAY_NANOS;
    assert_eq!(recent_cutoff(now, 30), 970 * DAY_NANOS);
    assert_eq!(recent_cutoff(now, 0), 999 * DAY_NANOS);
    assert_eq!(recent_cutoff(now, 10_000), 635 * DAY_NANOS);
    assert_eq!(recent_cutoff(5, 1), 0);
}

#[test]
fn recent_notes_newest_first_after_cutoff() {
    let notes = notes_of(vec![
        note("Old", "old.md", &[], 100),
        note("Mid", "mid.md", &[], 300),
        note("New", "new.md", &[], 500),
        note("Tie", "tie.md", &[], 300),
    ]);
    let r = recent_notes(&notes, 200 * SEC);
    let got: Vec<(&str, &str, i64)> = r.iter().map(|(a, b, c)| (a.as_str(), b.as_str(), *c)).collect();
    assert_eq!(got, vec![("New", "new.md", 500), ("Mid", "mid.md", 300), ("Tie", "tie.md", 300)]);
    assert!(recent_notes(&notes, 500 * SEC).is_empty());
}

#[test]
fn note_stats_counts_and_bounds() {
    let now: u64 = 30 * 86_400;
    let notes = notes_of(vec![
        note("A", "a.md", &[], (now - 86_400) as u128),
        note("B", "b.md", &[], 86_400),
        note("C", "c.md", &[], (now - 8 * 86_400) as u128),
    ]);
    let s = note_stats(&notes, 7, now);
    assert_eq!(s.total_notes, 3);
    assert_eq!(s.total_tags, 7);
    assert_eq!(s.recent_updated, 1);
    assert_eq!(s.oldest_note_time, Some(86_400));
    assert_eq!(s.newest_note_time, Some(now - 86_400));
    let empty: StrKeyMap<Note> = StrKeyMap::new();
    let e = note_stats(&empty, 0, 0);
    assert_eq!((e.total_notes, e.recent_updated), (0, 0));
    assert_eq!(e.oldest_note_time, None);
    assert_eq!(e.newest_note_time, None);
}
