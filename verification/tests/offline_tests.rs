use obsidian_mirror::offline::{
    filter_notes, highlight_term, is_cjk_bigram, tokenize_text, truncate_html, Bitset, FilterNote, NoteEntry,
    NoteIndex,
};
use obsidian_mirror::snippet::find_substr_ci;

fn entry(title: &str, path: &str, tags: &[&str], content: &str, mtime: i64) -> NoteEntry {
    NoteEntry {
        title: title.to_string(),
        path: path.to_string(),
        tags: tags.iter().map(|t| t.to_string()).collect(),
        content: content.to_string(),
        mtime,
    }
}

fn filter_note(title: &str, path: &str, tags: &[&str]) -> FilterNote {
    FilterNote {
        title: title.to_string(),
        path: path.to_string(),
        tags: tags.iter().map(|t| t.to_string()).collect(),
    }
}

#[test]
fn test_bitset_basic() {
    let mut bs = Bitset::new(200);
    bs.union_with_slice(&[0, 63, 64, 127, 128, 199]);
    let ones: Vec<usize> = bs.iter_ones();
    assert_eq!(ones, vec![0, 63, 64, 127, 128, 199], "应按升序返回所有置位索引");
}

#[test]
fn test_bitset_empty() {
    let bs = Bitset::new(100);
    assert_eq!(bs.iter_ones().len(), 0, "空位图应无置位");
}

#[test]
fn test_bitset_union_dedup() {
    let mut bs = Bitset::new(100);
    bs.union_with_slice(&[5, 10, 5, 10, 5]);
    let ones: Vec<usize> = bs.iter_ones();
    assert_eq!(ones, vec![5, 10], "重复索引应自动去重（位图天然去重）");
}

#[test]
fn bitset_ignores_positions_past_capacity() {
    let mut bs = Bitset::new(10);
    bs.union_with_slice(&[3, 63, 64, 1000]);
    assert_eq!(bs.iter_ones(), vec![3, 63]);
}

#[test]
fn test_bitset_search_correctness() {
    let idx = NoteIndex::from_entries(vec![
        entry("Rust 编程", "rust.md", &["rust"], "系统编程语言", 0),
        entry("Python 教程", "py.md", &["python"], "脚本语言", 0),
    ]);
    let results = idx.search("rust", 10);
    assert!(!results.is_empty(), "应找到 Rust 相关笔记");
    assert_eq!(results[0].title, "Rust 编程");
}

#[test]
fn test_find_substr_ci_ascii() {
    assert_eq!(find_substr_ci("Hello World", "world"), Some(6));
    assert_eq!(find_substr_ci("Hello World", "hello"), Some(0));
    assert_eq!(find_substr_ci("Hello", "xyz"), None);
    assert_eq!(find_substr_ci("", "abc"), None);
    assert_eq!(find_substr_ci("Rust 编程", "rust"), Some(0));
}

#[test]
fn test_find_substr_ci_cjk() {
    assert_eq!(find_substr_ci("中文搜索", "搜索"), Some(6));
    assert_eq!(find_substr_ci("中文搜索", "中"), Some(0));
}

#[test]
fn test_m3_cjk_token_limit() {
    let entries: Vec<NoteEntry> = (0..500)
        .map(|i| entry(&format!("笔记{}", i), &format!("n{}.md", i), &[], &format!("内容{}", i), 0))
        .collect();
    let idx = NoteIndex::from_entries(entries);
    let result = idx.search("这是一个包含很多词语的长查询语句测试", 10);
    assert!(result.len() <= 10, "长 CJK 查询应正常返回数组");
}

#[test]
fn test_filter_notes_by_tag() {
    let notes = vec![
        filter_note("Rust 笔记", "rust.md", &["rust", "编程"]),
        filter_note("Python 笔记", "python.md", &["python"]),
        filter_note("Rust Web", "web/rust.md", &["rust", "web"]),
    ];
    let result = filter_notes(&notes, "rust", "", 10);
    assert_eq!(result.len(), 2, "应过滤出 2 条 rust 标签笔记");
}

#[test]
fn test_filter_notes_by_folder() {
    let notes = vec![filter_note("根目录笔记", "root.md", &[]), filter_note("子目录笔记", "web/note.md", &[])];
    let result = filter_notes(&notes, "", "web/", 10);
    assert_eq!(result.len(), 1, "应只返回 web/ 路径下的笔记");
}

#[test]
fn filter_notes_requires_every_tag_and_honours_the_limit() {
    let notes = vec![
        filter_note("A", "Web/a.md", &["Rust", "Web"]),
        filter_note("B", "web/b.md", &["rust"]),
        filter_note("C", "web/c.md", &["rust", "web"]),
        filter_note("D", "other/d.md", &["rust", "web"]),
    ];
    let both = filter_notes(&notes, " rust , web ,", "WEB/", 10);
    let titles: Vec<&str> = both.iter().map(|n| n.title.as_str()).collect();
    assert_eq!(titles, vec!["A", "C"]);
    let first = filter_notes(&notes, "rust", "", 2);
    let titles: Vec<&str> = first.iter().map(|n| n.title.as_str()).collect();
    assert_eq!(titles, vec!["A", "B"]);
    assert_eq!(first[1].path, "web/b.md");
    assert_eq!(first[1].tags, vec!["rust".to_string()]);
    assert!(filter_notes(&notes, "Rust", "", 10).is_empty());
}

#[test]
fn test_note_index_load_and_search() {
    let idx = NoteIndex::from_entries(vec![
        entry("Rust 编程指南", "rust.md", &["rust", "编程"], "Rust 是一门系统编程语言，强调安全性和性能。", 0),
        entry("Python 教程", "python.md", &["python"], "Python 是一门简洁的脚本语言，广泛应用于数据科学。", 0),
    ]);
    assert_eq!(idx.note_count(), 2, "应加载 2 条笔记");
    assert!(idx.search("rust", 10).len() >= 1, "应找到 Rust 相关笔记");
}

#[test]
fn test_note_index_empty_query() {
    let idx = NoteIndex::from_entries(vec![entry("笔记A", "a.md", &[], "内容A", 0)]);
    assert!(idx.search("", 10).is_empty(), "空查询应返回空数组");
    assert!(idx.search("   ", 10).is_empty());
    assert!(idx.search("a ! b", 10).is_empty());
}

#[test]
fn test_note_index_cjk_search() {
    let idx = NoteIndex::from_entries(vec![
        entry("笔记索引优化", "notes.md", &["优化"], "笔记管理和索引优化是提高效率的关键。", 0),
        entry("Python 基础", "py.md", &[], "基础语法和函数定义。", 0),
    ]);
    let results = idx.search("优化", 10);
    assert!(!results.is_empty(), "应找到包含'优化'的笔记");
    assert_eq!(results[0].path, "notes.md");
}

#[test]
fn test_m4_scoring_correctness() {
    let idx = NoteIndex::from_entries(vec![entry("Rust 编程指南", "guide.md", &["rust"], "介绍 Rust 语言基础知识", 0)]);
    let results = idx.search("rust", 10);
    assert_eq!(results.len(), 1, "应找到 1 条笔记");
    assert!(results[0].score >= 10, "命中标题应得分 ≥ 10，实际={}", results[0].score);
    assert_eq!(results[0].score, 16);
}

#[test]
fn test_m4_no_match_returns_empty() {
    let idx = NoteIndex::from_entries(vec![entry("笔记 A", "a.md", &[], "hello world", 0)]);
    assert!(idx.search("完全不存在的词语xyz", 10).is_empty(), "无命中应返回空数组");
}

#[test]
fn offline_search_orders_by_score_then_time_and_limits() {
    let idx = NoteIndex::from_entries(vec![
        entry("other", "a.md", &[], "rust here", 5),
        entry("rust", "b.md", &[], "", 1),
        entry("about rust", "c.md", &["rust"], "", 2),
        entry("misc", "d.md", &[], "rust too", 9),
    ]);
    let all = idx.search("Rust", 10);
    let order: Vec<(&str, u32)> = all.iter().map(|h| (h.path.as_str(), h.score)).collect();
    assert_eq!(order, vec![("c.md", 15), ("b.md", 10), ("d.md", 1), ("a.md", 1)]);
    assert_eq!(all[3].snippet, "rust here");
    assert_eq!(idx.search("rust", 2).len(), 2);
    let bigram = NoteIndex::from_entries(vec![entry("中文", "z.md", &[], "", 0)]);
    assert_eq!(bigram.search("中文", 10)[0].score, 35);
}

#[test]
fn offline_snippet_cuts_around_the_first_match() {
    let long = format!("{}needle {}", "a ".repeat(50), "b ".repeat(100));
    let idx = NoteIndex::from_entries(vec![entry("t", "p.md", &[], &long, 0)]);
    let hits = idx.search("needle", 10);
    let expected = format!("...{}...", &long[70..220]);
    assert_eq!(hits[0].snippet, expected);
}

#[test]
fn test_tokenize_text() {
    let tokens = tokenize_text("Hello World");
    assert!(tokens.contains(&"hello".to_string()), "应包含 hello");
    assert!(tokens.contains(&"world".to_string()), "应包含 world");

    let cjk_tokens = tokenize_text("中文搜索");
    assert!(cjk_tokens.contains(&"中".to_string()), "应包含单字 unigram");
    assert!(cjk_tokens.contains(&"中文".to_string()), "应包含双字 bigram");
}

#[test]
fn tokenize_keeps_order_and_drops_one_byte_words() {
    assert_eq!(tokenize_text("A bc, é!"), vec!["bc".to_string(), "é".to_string()]);
    assert_eq!(
        tokenize_text("中文x"),
        vec!["中文x", "中", "中文", "文"].into_iter().map(String::from).collect::<Vec<_>>()
    );
    assert!(is_cjk_bigram("中文"));
    assert!(!is_cjk_bigram("中"));
    assert!(!is_cjk_bigram("ab"));
}

#[test]
fn test_highlight_term_ascii() {
    assert_eq!(highlight_term("Hello World", "world"), "Hello <mark>World</mark>", "应高亮 World");
}

#[test]
fn test_highlight_term_empty_term() {
    assert_eq!(highlight_term("Hello", ""), "Hello", "空 term 应原样返回");
}

#[test]
fn test_highlight_term_no_match() {
    assert_eq!(highlight_term("Hello", "xyz"), "Hello", "无匹配时应原样返回");
}

#[test]
fn test_highlight_term_multiple() {
    assert_eq!(
        highlight_term("abc abc abc", "abc"),
        "<mark>abc</mark> <mark>abc</mark> <mark>abc</mark>",
        "所有匹配位置均应高亮"
    );
}

#[test]
fn test_truncate_html_no_tags() {
    assert_eq!(truncate_html("Hello World", 5), "Hello...", "应截断到 5 字符后加 ...");
}

#[test]
fn test_truncate_html_with_tags() {
    assert_eq!(truncate_html("<p>Hello <b>World</b></p>", 5), "Hello...", "应去除标签后截断");
}

#[test]
fn test_truncate_html_short() {
    assert_eq!(truncate_html("<p>Hi</p>", 100), "Hi", "不超限时不应截断");
}
