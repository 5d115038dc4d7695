use obsidian_mirror::domain::{Frontmatter, Note, TocItem};
use obsidian_mirror::insights::{compute_insights, compute_insights_checked, count_visible_chars, days_to_ymd};
use obsidian_mirror::keyed::StrKeyMap;

const NOW: i64 = 1_776_211_200; // 2026-04-15

fn make_note(title: &str, path: &str, tags: Vec<&str>, outgoing: Vec<&str>, html: &str) -> Note {
    Note {
        path: path.to_string(),
        title: title.to_string(),
        content_html: html.to_string(),
        backlinks: vec![],
        tags: tags.into_iter().map(|s| s.to_string()).collect(),
        toc: vec![],
        mtime: 0,
        frontmatter: Frontmatter::Null,
        outgoing_links: outgoing.into_iter().map(|s| s.to_string()).collect(),
    }
}

#[test]
fn test_orphan_detection() {
    let mut notes = StrKeyMap::new();
    notes.insert("a.md".to_string(), make_note("A", "a.md", vec![], vec![], "hello"));
    notes.insert("b.md".to_string(), make_note("B", "b.md", vec![], vec![], "world"));

    let cache = compute_insights(&notes, &StrKeyMap::new(), &StrKeyMap::new(), NOW);
    assert_eq!(cache.orphan_notes.len(), 2, "A 和 B 都应为孤立笔记");
}

#[test]
fn test_broken_link_detection() {
    let mut notes = StrKeyMap::new();
    notes.insert("a.md".to_string(), make_note("A", "a.md", vec![], vec!["不存在"], "x"));

    let cache = compute_insights(&notes, &StrKeyMap::new(), &StrKeyMap::new(), NOW);
    assert_eq!(cache.broken_links.len(), 1);
    assert_eq!(cache.broken_links[0].broken_target, "不存在");
}

#[test]
fn test_large_note_detection() {
    let long_html = "x".repeat(5001);
    let mut notes = StrKeyMap::new();
    notes.insert("big.md".to_string(), make_note("Big", "big.md", vec![], vec![], &long_html));

    let cache = compute_insights(&notes, &StrKeyMap::new(), &StrKeyMap::new(), NOW);
    assert_eq!(cache.large_notes.len(), 1);
}

#[test]
fn test_large_note_with_toc_excluded() {
    let long_html = "x".repeat(5001);
    let mut note = make_note("Structured", "structured.md", vec![], vec![], &long_html);
    note.toc = vec![TocItem { level: 1, text: "标题".to_string(), id: "h1".to_string() }];

    let mut notes = StrKeyMap::new();
    notes.insert("structured.md".to_string(), note);

    let cache = compute_insights(&notes, &StrKeyMap::new(), &StrKeyMap::new(), NOW);
    assert_eq!(cache.large_notes.len(), 0, "有 TOC 的笔记不应被标记为超大笔记");
}

#[test]
fn test_untagged_ratio() {
    let mut notes = StrKeyMap::new();
    notes.insert("a.md".to_string(), make_note("A", "a.md", vec!["tag"], vec![], ""));
    notes.insert("b.md".to_string(), make_note("B", "b.md", vec![], vec![], ""));

    let cache = compute_insights(&notes, &StrKeyMap::new(), &StrKeyMap::new(), NOW);
    assert_eq!(cache.untagged_count, 1);
    let untagged_ratio = cache.untagged_count as f64 / cache.total_notes as f64;
    assert!((untagged_ratio - 0.5).abs() < 0.01);
}

#[test]
fn test_tag_cloud_sorted() {
    let mut tag_index = StrKeyMap::new();
    tag_index.insert("rust".to_string(), vec!["a".to_string(), "b".to_string(), "c".to_string()]);
    tag_index.insert("python".to_string(), vec!["x".to_string()]);

    let cache = compute_insights(&StrKeyMap::new(), &StrKeyMap::new(), &tag_index, NOW);
    assert_eq!(cache.tag_cloud[0].tag, "rust", "高频标签应排在前面");
    assert_eq!(cache.tag_cloud[0].count, 3);
}

#[test]
fn test_count_visible_chars() {
    assert_eq!(count_visible_chars("<p>hello</p>"), 5);
    assert_eq!(count_visible_chars("<b>你好</b>"), 2);
    assert_eq!(count_visible_chars("no tags"), 7);
}

#[test]
fn test_days_to_ymd_epoch() {
    assert_eq!(days_to_ymd(0), (1970, 1, 1));
}

#[test]
fn test_days_to_ymd_known() {
    let (y, m, d) = days_to_ymd(20558);
    assert!(y >= 2026 && y <= 2027);
    assert!(m >= 1 && m <= 12);
    assert!(d >= 1 && d <= 31);
}

#[test]
fn days_to_ymd_exact_dates() {
    assert_eq!(days_to_ymd(20558), (2026, 4, 15));
    assert_eq!(days_to_ymd(-1), (1969, 12, 31));
    assert_eq!(days_to_ymd(11016), (2000, 2, 29));
}

#[test]
fn linked_note_is_no_orphan_and_link_resolves() {
    let mut notes = StrKeyMap::new();
    notes.insert("a.md".to_string(), make_note("A", "a.md", vec![], vec!["B"], "x"));
    notes.insert("b.md".to_string(), make_note("B", "b.md", vec![], vec![], "y"));
    let mut links = StrKeyMap::new();
    links.insert("B".to_string(), "b.md".to_string());
    let cache = compute_insights(&notes, &links, &StrKeyMap::new(), NOW);
    assert_eq!(cache.orphan_notes.len(), 0);
    assert_eq!(cache.broken_links.len(), 0);
    assert_eq!(cache.total_links, 1);
    assert_eq!(cache.computed_at, NOW);
}

#[test]
fn note_linked_by_path_is_no_orphan() {
    let mut notes = StrKeyMap::new();
    notes.insert("a.md".to_string(), make_note("A", "a.md", vec![], vec!["b.md", "c"], "x"));
    notes.insert("b.md".to_string(), make_note("B", "b.md", vec![], vec![], "y"));
    notes.insert("c.md".to_string(), make_note("C", "c.md", vec![], vec![], "z"));
    notes.insert("d.md".to_string(), make_note("D", "d.md", vec![], vec![], "w"));
    let cache = compute_insights(&notes, &StrKeyMap::new(), &StrKeyMap::new(), NOW);
    let orphans: Vec<&str> = cache.orphan_notes.iter().map(|r| r.path.as_str()).collect();
    assert_eq!(orphans, vec!["d.md"]);
    assert_eq!(cache.broken_links.len(), 0);
}

#[test]
fn activity_covers_24_months_and_30_days() {
    let mut notes = StrKeyMap::new();
    let mut n = make_note("A", "a.md", vec![], vec![], "x");
    n.mtime = (NOW as u128) * 1_000_000_000;
    notes.insert("a.md".to_string(), n);
    let cache = compute_insights(&notes, &StrKeyMap::new(), &StrKeyMap::new(), NOW);
    assert_eq!(cache.monthly_counts.len(), 24);
    assert_eq!(cache.daily_counts.len(), 30);
    assert_eq!(cache.monthly_counts[23].year_month, "2026-04");
    assert_eq!(cache.monthly_counts[23].count, 1);
    assert_eq!(cache.daily_counts[29].date, "2026-04-15");
    assert_eq!(cache.daily_counts[29].count, 1);
    assert_eq!(cache.daily_counts[28].count, 0);
}

#[test]
fn checked_insights_refuse_times_before_the_epoch() {
    let notes: StrKeyMap<Note> = StrKeyMap::new();
    assert!(compute_insights_checked(&notes, &StrKeyMap::new(), &StrKeyMap::new(), -1).is_none());
    let c = compute_insights_checked(&notes, &StrKeyMap::new(), &StrKeyMap::new(), NOW).unwrap();
    assert_eq!(c.computed_at, NOW);
}
