use hmac::digest::KeyInit;
use hmac::{Mac, SimpleHmac};
use obsidian_mirror::domain::{Frontmatter, Note};
use obsidian_mirror::export::{build_static_note_html, export_site};
use obsidian_mirror::handlers::{
    check_webhook, default_depth, default_page, default_per_page, default_recent_days,
    default_suggest_limit, generate_breadcrumbs, hex_decode, home_note, is_valid_commit_hash,
    note_path_to_html, render_diff_html, resolve_note_key, truncate_html, verify_github_signature,
    xml_escape, WebhookCheck,
};
use obsidian_mirror::handlers::{
    asset_request, local_suggestions, lookup_note, merge_suggestions, suggestion_limit, suggestion_query,
    AssetRequest, NoteLookup,
};
use obsidian_mirror::keyed::StrKeyMap;
use sha2::Sha256;

type HmacSha256 = SimpleHmac<Sha256>;

fn sign(secret: &[u8], body: &[u8]) -> String {
    let mut mac = HmacSha256::new_from_slice(secret).unwrap();
    mac.update(body);
    let result = mac.finalize().into_bytes();
    let hex: String = result.iter().map(|b| format!("{:02x}", b)).collect();
    format!("sha256={}", hex)
}

#[test]
fn test_verify_github_signature_correct() {
    let secret = "webhook_secret";
    let body = b"payload body";
    let sig = sign(secret.as_bytes(), body);
    assert!(verify_github_signature(secret, body, &sig), "正确签名应通过验证");
}

#[test]
fn test_verify_github_signature_wrong_secret() {
    let body = b"payload body";
    let sig = sign(b"wrong_secret", body);
    assert!(!verify_github_signature("correct_secret", body, &sig), "错误 secret 生成的签名应验证失败");
}

#[test]
fn test_verify_github_signature_missing_prefix() {
    assert!(!verify_github_signature("secret", b"body", "abcdef1234"), "缺少 sha256= 前缀应验证失败");
}

#[test]
fn test_verify_github_signature_invalid_hex() {
    assert!(!verify_github_signature("secret", b"body", "sha256=ZZZZZZ"), "非法十六进制应验证失败");
}

#[test]
fn signature_of_other_body_is_refused() {
    let sig = sign(b"s", b"one body");
    assert!(!verify_github_signature("s", b"another body", &sig));
    let upper = sig.to_uppercase().replace("SHA256=", "sha256=");
    assert!(verify_github_signature("s", b"one body", &upper));
}

#[test]
fn test_hex_decode_odd_length() {
    assert!(hex_decode("abc").is_none(), "奇数长度十六进制应返回 None");
}

#[test]
fn test_hex_decode_valid() {
    assert_eq!(hex_decode("deadbeef"), Some(vec![0xde, 0xad, 0xbe, 0xef]));
}

#[test]
fn hex_decode_edge_cases() {
    assert_eq!(hex_decode(""), Some(vec![]));
    assert_eq!(hex_decode("0A"), Some(vec![10]));
    assert!(hex_decode("zz").is_none());
    assert!(hex_decode("é0").is_none());
}

#[test]
fn test_is_valid_commit_hash_valid() {
    assert!(is_valid_commit_hash("a1b2c3d4e5f6a1b2c3d4e5f6a1b2c3d4e5f6a1b2"));
    assert!(is_valid_commit_hash("af605ea7"));
    assert!(is_valid_commit_hash("abcd"));
}

#[test]
fn test_is_valid_commit_hash_invalid() {
    assert!(!is_valid_commit_hash(""));
    assert!(!is_valid_commit_hash("g1b2c3d4"));
    assert!(!is_valid_commit_hash("a1b2 c3d4"));
    assert!(!is_valid_commit_hash("abc"));
    assert!(!is_valid_commit_hash(&"a".repeat(65)));
    assert!(!is_valid_commit_hash("HEAD~1"));
    assert!(!is_valid_commit_hash("HEAD^"));
    assert!(!is_valid_commit_hash("../secret"));
}

#[test]
fn commit_hash_length_bounds() {
    assert!(is_valid_commit_hash(&"f".repeat(64)));
    assert!(is_valid_commit_hash("ABCD"));
}

#[test]
fn test_render_diff_html_basic() {
    let diff = "--- a/note.md\n+++ b/note.md\n@@ -1,2 +1,3 @@\n context\n-deleted\n+added\n";
    let html = render_diff_html(diff);
    assert!(html.contains("diff-add"), "新增行应有 diff-add class");
    assert!(html.contains("diff-del"), "删除行应有 diff-del class");
    assert!(html.contains("diff-hunk"), "hunk 标头应有 diff-hunk class");
    assert!(html.contains("diff-ctx"), "上下文行应有 diff-ctx class");
    assert!(!html.contains("--- a/"), "文件头行不应出现在渲染结果中");
}

#[test]
fn test_render_diff_html_xss_escaped() {
    let diff = "+<script>alert(1)</script>\n";
    let html = render_diff_html(diff);
    assert!(!html.contains("<script>"), "script 标签应被 HTML 转义");
    assert!(html.contains("&lt;script&gt;"), "尖括号应被转义为 &lt;/&gt;");
}

#[test]
fn render_diff_html_exact_rows() {
    let html = render_diff_html("-a\r\n b");
    assert_eq!(
        html,
        "<table class=\"diff-table\"><tbody>\
<tr class=\"diff-del\"><td class=\"diff-marker\">-</td><td><code>a</code></td></tr>\
<tr class=\"diff-ctx\"><td class=\"diff-marker\"> </td><td><code>b</code></td></tr>\
</tbody></table>"
    );
    assert_eq!(render_diff_html(""), "<table class=\"diff-table\"><tbody></tbody></table>");
}

#[test]
fn test_xml_escape() {
    assert_eq!(xml_escape("a & b"), "a &amp; b");
    assert_eq!(xml_escape("<script>"), "&lt;script&gt;");
    assert_eq!(xml_escape("\"quoted\""), "&quot;quoted&quot;");
}

#[test]
fn test_note_path_to_html() {
    assert_eq!(note_path_to_html("folder/note.md"), "folder/note.html");
    assert_eq!(note_path_to_html("root.md"), "root.html");
    assert_eq!(note_path_to_html("note"), "note.html");
}

fn note(path: &str, title: &str, html: &str) -> Note {
    Note {
        path: path.to_string(),
        title: title.to_string(),
        content_html: html.to_string(),
        backlinks: vec![],
        tags: vec![],
        toc: vec![],
        mtime: 0,
        frontmatter: Frontmatter::Null,
        outgoing_links: vec![],
    }
}

#[test]
fn test_build_static_note_html_contains_title() {
    let n = note("test.md", "测试笔记", "<p>内容</p>");
    let html = build_static_note_html(&n, &vec![("test.md".to_string(), "测试笔记".to_string())]);
    assert!(html.contains("测试笔记"), "HTML 应包含笔记标题");
    assert!(html.contains("<p>内容</p>"), "HTML 应包含笔记内容");
}

#[test]
fn static_page_links_every_note() {
    let n = note("a.md", "A & B", "x");
    let all = vec![("a.md".to_string(), "A & B".to_string()), ("d/b".to_string(), "B".to_string())];
    let html = build_static_note_html(&n, &all);
    assert!(html.contains("<ul><li><a href=\"/a.html\">A &amp; B</a></li>\n<li><a href=\"/d/b.html\">B</a></li></ul>"));
    assert!(html.contains("<title>A &amp; B - Obsidian Mirror Export</title>"));
}

#[test]
fn export_site_has_one_page_per_note_then_index_and_readme() {
    let mut notes = StrKeyMap::new();
    notes.insert("z.md".to_string(), note("z.md", "Z", "<p>z</p>"));
    notes.insert("a.md".to_string(), note("a.md", "A", "<p>a</p>"));
    let files = export_site(&notes);
    assert_eq!(files.len(), 4);
    assert_eq!(files[0].0, "a.html");
    assert_eq!(files[1].0, "z.html");
    assert_eq!(files[2].0, "index.html");
    assert_eq!(files[3].0, "README.md");
    assert!(files[2].1.contains("共 2 篇笔记"));
    assert!(files[2].1.contains("<li><a href=\"a.html\">A</a></li>\n<li><a href=\"z.html\">Z</a></li>"));
    assert!(files[0].1.contains("<p>a</p>"));
}

#[test]
fn breadcrumbs_of_nested_note() {
    let b = generate_breadcrumbs("文件夹1/子文件夹/笔记.md", "笔记");
    assert_eq!(b.len(), 4);
    assert_eq!(b[0].name, "首页");
    assert_eq!(b[0].path.as_deref(), Some("/"));
    assert_eq!(b[1].name, "文件夹1");
    assert!(b[1].path.is_none());
    assert_eq!(b[2].name, "子文件夹");
    assert_eq!(b[3].name, "笔记");
    assert!(b[3].path.is_none());
}

#[test]
fn breadcrumbs_of_root_note() {
    let b = generate_breadcrumbs("note.md", "Note");
    assert_eq!(b.len(), 2);
    assert_eq!(b[1].name, "Note");
}

#[test]
fn truncate_html_counts_visible_characters() {
    assert_eq!(truncate_html("<p>hello</p> <b>world</b>", 500), "hello world");
    assert_eq!(truncate_html("<p>你好世界</p>", 2), "你好...");
    assert_eq!(truncate_html("", 3), "");
}

#[test]
fn query_defaults() {
    assert_eq!(default_page(), 1);
    assert_eq!(default_per_page(), 20);
    assert_eq!(default_depth(), 2);
    assert_eq!(default_recent_days(), 30);
    assert_eq!(default_suggest_limit(), 10);
}

#[test]
fn note_lookup_order() {
    let mut notes = StrKeyMap::new();
    notes.insert("dir/a.md".to_string(), note("dir/a.md", "A", ""));
    notes.insert("b.md".to_string(), note("b.md", "B", ""));
    let mut links = StrKeyMap::new();
    links.insert("A".to_string(), "dir/a.md".to_string());
    assert_eq!(resolve_note_key("dir/a.md", &notes, &links).as_deref(), Some("dir/a.md"));
    assert_eq!(resolve_note_key("A", &notes, &links).as_deref(), Some("dir/a.md"));
    assert_eq!(resolve_note_key("b", &notes, &links).as_deref(), Some("b.md"));
    assert_eq!(resolve_note_key("c", &notes, &links), None);
}

#[test]
fn note_lookup_decodes_the_path() {
    let mut notes = StrKeyMap::new();
    notes.insert("dir/笔记.md".to_string(), note("dir/笔记.md", "笔记", ""));
    let links: StrKeyMap<String> = StrKeyMap::new();
    match lookup_note("dir%2F%E7%AC%94%E8%AE%B0", &notes, &links) {
        NoteLookup::Found(p, k) => {
            assert_eq!(p, "dir/笔记");
            assert_eq!(k, "dir/笔记.md");
        },
        _ => panic!("the note exists"),
    }
    match lookup_note("none", &notes, &links) {
        NoteLookup::NotFound(p) => assert_eq!(p, "none"),
        _ => panic!("no such note"),
    }
    assert!(matches!(lookup_note("%C3%28", &notes, &links), NoteLookup::BadPath));
}

#[test]
fn home_note_prefers_readme() {
    let mut notes = StrKeyMap::new();
    notes.insert("index.md".to_string(), note("index.md", "I", ""));
    assert_eq!(home_note(&notes).as_deref(), Some("index.md"));
    notes.insert("readme.md".to_string(), note("readme.md", "R", ""));
    assert_eq!(home_note(&notes).as_deref(), Some("readme.md"));
    assert_eq!(home_note(&StrKeyMap::new()), None);
}

#[test]
fn webhook_checks() {
    let body = b"{}";
    let good = Some(sign(b"k", body));
    assert_eq!(check_webhook(false, "k", &good, &None, body), WebhookCheck::Disabled);
    assert_eq!(check_webhook(true, "", &good, &None, body), WebhookCheck::SecretMissing);
    assert_eq!(check_webhook(true, "k", &good, &None, body), WebhookCheck::Accepted);
    assert_eq!(check_webhook(true, "k", &Some("sha256=00".to_string()), &None, body), WebhookCheck::BadSignature);
    assert_eq!(check_webhook(true, "k", &None, &Some("k".to_string()), body), WebhookCheck::Accepted);
    assert_eq!(check_webhook(true, "k", &None, &Some("x".to_string()), body), WebhookCheck::BadToken);
    assert_eq!(check_webhook(true, "k", &None, &None, body), WebhookCheck::MissingAuth);
}

#[test]
fn suggestions_prefix_then_contains_then_more() {
    let mut notes = StrKeyMap::new();
    notes.insert("x/Rust Book.md".to_string(), note("x/Rust Book.md", "Rust Book", ""));
    notes.insert("Learning Rust.md".to_string(), note("Learning Rust.md", "Learning Rust", ""));
    notes.insert("Go.md".to_string(), note("Go.md", "Go", ""));
    let q = suggestion_query("  RUST ").unwrap();
    assert_eq!(q, "rust");
    assert_eq!(suggestion_query("   "), None);
    let mut r = local_suggestions(&notes, &q, suggestion_limit(10));
    assert_eq!(
        r,
        vec![
            ("Rust Book".to_string(), "x/Rust Book.md".to_string()),
            ("Learning Rust".to_string(), "Learning Rust.md".to_string())
        ]
    );
    merge_suggestions(
        &mut r,
        &vec![("Rusty".to_string(), "Rusty.md".to_string()), ("Rust Book".to_string(), "x/Rust Book.md".to_string())],
        3,
    );
    assert_eq!(r.len(), 3);
    assert_eq!(r[2].1, "Rusty.md");
    assert_eq!(suggestion_limit(50), 20);
}

#[test]
fn asset_request_decodes_and_looks_up_the_index() {
    let mut index = StrKeyMap::new();
    index.insert("图片.png".to_string(), "attachments/图片.png".to_string());
    match asset_request("%E5%9B%BE%E7%89%87.png", &index) {
        AssetRequest::Named(name, indexed) => {
            assert_eq!(name, "图片.png");
            assert_eq!(indexed.as_deref(), Some("attachments/图片.png"));
        },
        AssetRequest::BadName => panic!("valid name"),
    }
    match asset_request("dir/other.pdf", &index) {
        AssetRequest::Named(name, indexed) => {
            assert_eq!(name, "dir/other.pdf");
            assert_eq!(indexed, None);
        },
        AssetRequest::BadName => panic!("valid name"),
    }
    assert!(matches!(asset_request("%FF.png", &index), AssetRequest::BadName));
}
