use obsidian_mirror::domain::{Frontmatter, Note};
use obsidian_mirror::feed::{feed_xml, feed_xml_checked};
use obsidian_mirror::keyed::StrKeyMap;
use obsidian_mirror::reading::{HistoryResponse, ListHistoryQuery, ListProgressQuery, ReadingHistory};
use obsidian_mirror::share::{may_revoke, CreateShareResponse, ShareInfoResponse, ShareLink};

const SEC: u128 = 1_000_000_000;

fn note(path: &str, title: &str, tags: &[&str], mtime_secs: u128) -> Note {
    Note {
        path: path.to_string(),
        title: title.to_string(),
        content_html: format!("<p>{}</p>", title),
        backlinks: Vec::new(),
        tags: tags.iter().map(|t| t.to_string()).collect(),
        toc: Vec::new(),
        mtime: mtime_secs * SEC,
        frontmatter: Frontmatter::Null,
        outgoing_links: Vec::new(),
    }
}

fn notes() -> StrKeyMap<Note> {
    let mut m = StrKeyMap::new();
    for n in vec![
        note("a.md", "A & B", &["rust"], 60),
        note("dir/b c.md", "B", &["web"], 86_400 + 3_661),
        note("dir2/x.md", "X", &["rust"], 30),
    ] {
        m.insert(n.path.clone(), n);
    }
    m
}

const HEAD_LOCAL: &str = "<?xml version=\"1.0\" encoding=\"UTF-8\"?>\n<feed xmlns=\"http://www.w3.org/2005/Atom\">\n  <title>Obsidian Mirror</title>\n  <link href=\"http://localhost:8080/\" rel=\"alternate\"/>\n  <link href=\"http://localhost:8080/feed.xml\" rel=\"self\"/>\n  <updated>1970-01-01T00:00:00Z</updated>\n  <id>http://localhost:8080/</id>\n";

#[test]
fn test_to_rfc3339_epoch() {
    let empty: StrKeyMap<Note> = StrKeyMap::new();
    let xml = feed_xml(&empty, None, None, None, 0);
    assert!(xml.contains("<updated>1970-01-01T00:00:00Z</updated>"), "epoch 应为 1970-01-01T00:00:00Z");
    assert_eq!(xml, format!("{}</feed>\n", HEAD_LOCAL));
}

#[test]
fn feed_lists_newest_first_with_escaped_titles_and_encoded_links() {
    let xml = feed_xml(&notes(), Some("https://notes.example.com//"), None, None, 90_061);
    assert!(xml.contains("<updated>1970-01-02T01:01:01Z</updated>\n  <id>https://notes.example.com/</id>"));
    let b = xml.find("<title>B</title>").unwrap();
    let a = xml.find("<title>A &amp; B</title>").unwrap();
    let x = xml.find("<title>X</title>").unwrap();
    assert!(b < a && a < x);
    assert!(xml.contains("<link href=\"https://notes.example.com/doc/dir%2Fb%20c%2Emd\"/>"));
    assert!(xml.contains("<updated>1970-01-02T01:01:01Z</updated>\n    <content type=\"html\"><![CDATA[<p>B</p>]]></content>"));
    assert!(xml.ends_with("  </entry>\n</feed>\n"));
}

#[test]
fn feed_filters_by_tag_and_folder() {
    let xml = feed_xml(&notes(), None, Some("rust"), None, 0);
    assert!(xml.contains("<title>A &amp; B</title>") && xml.contains("<title>X</title>"));
    assert!(!xml.contains("<title>B</title>"));
    let xml = feed_xml(&notes(), None, None, Some("dir/"), 0);
    assert!(xml.contains("<title>B</title>"));
    assert!(!xml.contains("<title>X</title>") && !xml.contains("<title>A &amp; B</title>"));
}

#[test]
fn feed_keeps_at_most_fifty_entries() {
    let mut m = StrKeyMap::new();
    for i in 0..60u128 {
        let n = note(&format!("n{}.md", i), &format!("N{}", i), &[], i);
        m.insert(n.path.clone(), n);
    }
    let xml = feed_xml(&m, None, None, None, 0);
    assert_eq!(xml.matches("<entry>").count(), 50);
    assert!(xml.contains("<title>N59</title>") && !xml.contains("<title>N9</title>"));
}

#[test]
fn feed_checked_refuses_undatable_times() {
    let mut m = notes();
    assert!(feed_xml_checked(&m, None, None, None, 0).is_some());
    let far = note("far.md", "Far", &["web"], 9_000_000_000_000);
    m.insert(far.path.clone(), far);
    assert!(feed_xml_checked(&m, None, Some("rust"), None, 0).is_some());
    assert!(feed_xml_checked(&m, None, None, None, 0).is_none());
}

fn link(created_secs: u128, expires_secs: Option<u128>, max: Option<u32>, visits: u32) -> ShareLink {
    ShareLink {
        token: "tok".to_string(),
        note_path: "a.md".to_string(),
        creator: "alice".to_string(),
        created_at: created_secs * SEC,
        expires_at: expires_secs.map(|s| s * SEC),
        password_hash: Some("hash".to_string()),
        max_visits: max,
        visit_count: visits,
    }
}

#[test]
fn share_answers_carry_rfc3339_times() {
    let l = link(0, Some(3600), Some(5), 2);
    let r = CreateShareResponse::from_link(&l, "http://h/share/tok".to_string());
    assert_eq!(r.token, "tok");
    assert_eq!(r.share_url, "http://h/share/tok");
    assert_eq!(r.created_at, "1970-01-01T00:00:00+00:00");
    assert_eq!(r.expires_at.as_deref(), Some("1970-01-01T01:00:00+00:00"));
    let info = ShareInfoResponse::from_link_at(&l, 10 * SEC);
    assert!(info.has_password && info.is_valid);
    assert_eq!((info.max_visits, info.visit_count), (Some(5), 2));
    assert!(!ShareInfoResponse::from_link_at(&l, 3601 * SEC).is_valid);
    assert!(!ShareInfoResponse::from_link_at(&link(0, None, Some(2), 2), 0).is_valid);
    assert!(may_revoke(&l, "alice"));
    assert!(!may_revoke(&l, "bob"));
}

#[test]
fn reading_queries_bound_their_limits() {
    assert_eq!(ListProgressQuery { limit: None }.effective_limit(), 20);
    assert_eq!(ListProgressQuery { limit: Some(500) }.effective_limit(), 100);
    assert_eq!(ListProgressQuery { limit: Some(7) }.effective_limit(), 7);
    assert_eq!(ListHistoryQuery { limit: None }.effective_limit(), 50);
    assert_eq!(ListHistoryQuery { limit: Some(500) }.effective_limit(), 200);
    let h = ReadingHistory {
        username: "u".to_string(),
        note_path: "a.md".to_string(),
        note_title: "A".to_string(),
        visited_at: 1_500_000_000 * SEC + 250_000_000,
        duration: 9,
    };
    let r = HistoryResponse::from_history(&h);
    assert_eq!(r.visited_at, "2017-07-14T02:40:00.250+00:00");
    assert_eq!((r.note_path.as_str(), r.note_title.as_str(), r.duration), ("a.md", "A", 9));
}

#[test]
fn share_times_show_their_fraction_of_a_second() {
    let mut l = link(0, None, None, 0);
    l.created_at = 1_500_000_000;
    let r = CreateShareResponse::from_link(&l, "u".to_string());
    assert_eq!(r.created_at, "1970-01-01T00:00:01.500+00:00");
    l.created_at = 1_000_001_000;
    assert_eq!(CreateShareResponse::from_link(&l, "u".to_string()).created_at, "1970-01-01T00:00:01.000001+00:00");
    l.created_at = 1_000_000_001;
    assert_eq!(CreateShareResponse::from_link(&l, "u".to_string()).created_at, "1970-01-01T00:00:01.000000001+00:00");
}
