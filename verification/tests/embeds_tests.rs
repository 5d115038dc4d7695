use obsidian_mirror::domain::{Frontmatter, Note};
use obsidian_mirror::embeds::expand_embeds;
use obsidian_mirror::keyed::StrKeyMap;
use obsidian_mirror::url::percent_decode_or_empty;

fn note(path: &str, title: &str, html: &str) -> Note {
    Note {
        path: path.to_string(),
        title: title.to_string(),
        content_html: html.to_string(),
        backlinks: vec![],
        tags: vec![],
        toc: vec![],
        mtime: 0,
        frontmatter: Frontmatter::Null,
        outgoing_links: vec![],
    }
}

fn placeholder(title: &str, section: &str) -> String {
    format!(
        "<div class=\"note-embed-placeholder\" data-embed-title=\"{}\" data-embed-section=\"{}\"></div>",
        title, section
    )
}

#[test]
fn text_without_placeholders_is_unchanged() {
    let notes = StrKeyMap::new();
    let links = StrKeyMap::new();
    assert_eq!(expand_embeds("<p>plain</p>", &notes, &links, 0), "<p>plain</p>");
}

#[test]
fn missing_note_gives_a_notice() {
    let notes = StrKeyMap::new();
    let links = StrKeyMap::new();
    let out = expand_embeds(&placeholder("Nope%20%3C", ""), &notes, &links, 0);
    assert_eq!(out, "<div class=\"note-embed-missing\">⚠️ 找不到笔记：Nope &lt;</div>");
}

#[test]
fn embedded_note_is_expanded_with_section_hint() {
    let mut notes = StrKeyMap::new();
    notes.insert("dir/B.md".to_string(), note("dir/B.md", "B", "<p>bee</p>"));
    let mut links = StrKeyMap::new();
    links.insert("B".to_string(), "dir/B.md".to_string());
    let out = expand_embeds(&format!("x{}y", placeholder("B.md", "Part")), &notes, &links, 0);
    assert!(out.starts_with("x<details class=\"note-embed\" open>"));
    assert!(out.contains("<a href=\"/doc/dir%2FB%2Emd\" class=\"note-embed-link\">B § Part</a>"));
    assert!(out.contains("<div class=\"note-embed-content markdown-body\"><p>bee</p></div>\n</details>y"));
}

#[test]
fn nested_embeds_stop_at_the_depth_limit() {
    let mut notes = StrKeyMap::new();
    notes.insert("A.md".to_string(), note("A.md", "A", &placeholder("A", "")));
    let links = StrKeyMap::new();
    let out = expand_embeds(&placeholder("A", ""), &notes, &links, 0);
    assert_eq!(out.matches("<details").count(), 2);
    assert!(out.contains("<div class=\"note-embed-depth-limit\"><em>⚠️ 内嵌深度超限（最多 2 层）：A</em></div>"));
}

#[test]
fn link_index_target_that_is_no_note() {
    let notes = StrKeyMap::new();
    let mut links = StrKeyMap::new();
    links.insert("X".to_string(), "gone.md".to_string());
    let out = expand_embeds(&placeholder("X", ""), &notes, &links, 0);
    assert_eq!(out, "<div class=\"note-embed-missing\">⚠️ 笔记内容不可用：X</div>");
}

#[test]
fn percent_decoding() {
    assert_eq!(percent_decode_or_empty("a%20b%zz%"), "a b%zz%");
    assert_eq!(percent_decode_or_empty("%E4%B8%AD"), "中");
    assert_eq!(percent_decode_or_empty("%FF"), "");
}
