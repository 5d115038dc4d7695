use obsidian_mirror::preview::{generate_toc_from_html, render_markdown, rewrite_preview};

#[test]
fn test_generate_toc_basic() {
    let html = r#"<h1 id="h-1">主标题</h1><p>段落</p><h2 id="h-2">小节</h2>"#;
    let toc = generate_toc_from_html(html);
    assert_eq!(toc.len(), 2, "应提取 2 个标题");
    assert_eq!(toc[0].level, 1, "第一个应为 h1");
    assert_eq!(toc[0].text, "主标题");
    assert_eq!(toc[0].id, "h-1");
}

#[test]
fn test_generate_toc_empty() {
    let toc = generate_toc_from_html("<p>无标题段落</p>");
    assert!(toc.is_empty(), "无标题时应返回空数组");
}

#[test]
fn toc_strips_inline_tags_and_skips_empty_headings() {
    let html = "<h2 id=\"a\"><code>x</code> y</h2><h3></h3><H4 ID='b_c'>Z</H4><h5>no id</h5><h6 class=\"k\">skip</h6>";
    let toc = generate_toc_from_html(html);
    assert_eq!(toc.len(), 3);
    assert_eq!((toc[0].level, toc[0].text.as_str(), toc[0].id.as_str()), (2, "x y", "a"));
    assert_eq!((toc[1].level, toc[1].text.as_str(), toc[1].id.as_str()), (4, "Z", "b_c"));
    assert_eq!((toc[2].level, toc[2].text.as_str(), toc[2].id.as_str()), (5, "no id", ""));
}

#[test]
fn test_render_markdown_basic() {
    let html = render_markdown("# 标题\n\n段落内容");
    assert!(html.contains("<h1>"), "应生成 h1 标签");
    assert!(html.contains("段落内容"), "应包含段落内容");
}

#[test]
fn test_render_markdown_wikilink() {
    let html = render_markdown("参见 [[笔记A]]");
    assert!(html.contains("href=\"/doc/"), "WikiLink 应转换为 /doc/ 路径");
    assert!(html.contains("笔记A"), "应保留链接文本");
}

#[test]
fn test_render_markdown_wikilink_alias() {
    let html = render_markdown("参见 [[笔记A|别名]]");
    assert!(html.contains("别名"), "应使用别名作为链接文本");
}

#[test]
fn test_render_markdown_image_wikilink() {
    let html = render_markdown("![[图片.png]]");
    assert!(html.contains("/assets/"), "图片 WikiLink 应指向 /assets/");
    assert!(html.contains("<img") || html.contains("!["), "应生成图片元素");
}

#[test]
fn test_render_markdown_highlight() {
    let html = render_markdown("这是 ==高亮文字== 内容");
    assert!(html.contains("<mark>高亮文字</mark>"), "应渲染高亮语法");
}

#[test]
fn test_render_markdown_math_inline() {
    let html = render_markdown("行内公式 $E=mc^2$ 内容");
    assert!(html.contains("math-inline"), "应包含行内数学占位符");
}

#[test]
fn test_render_markdown_math_block() {
    let html = render_markdown("$$\na + b = c\n$$");
    assert!(html.contains("math-block"), "应包含块级数学占位符");
}

#[test]
fn test_render_markdown_table() {
    let html = render_markdown("| A | B |\n|---|---|\n| 1 | 2 |");
    assert!(html.contains("<table>"), "应渲染表格");
}

#[test]
fn preview_rewriting_exact() {
    assert_eq!(rewrite_preview("[[A b|x<y]]"), "[x&lt;y](/doc/A%20b)");
    assert_eq!(rewrite_preview("![[n]]"), "[n](/doc/n)");
    assert_eq!(rewrite_preview("![[f.pdf|F]]"), "[F](/assets/f%2Epdf)");
    assert_eq!(rewrite_preview("![[p.PNG]]"), "\n\n![](/assets/p%2EPNG)\n\n");
    assert_eq!(rewrite_preview("$a<b$"), "<span class=\"math-inline\" data-math=\"a&lt;b\">a&lt;b</span>");
    assert_eq!(rewrite_preview("$ a$ and $b $"), "$ a$ and $b $");
    assert_eq!(rewrite_preview("$$x\ny$$"), "<div class=\"math-block\" data-math=\"x&#10;y\">x\ny</div>");
    assert_eq!(rewrite_preview("===a=="), "=<mark>a</mark>");
    assert_eq!(rewrite_preview("==a\nb=="), "==a\nb==");
}

#[test]
fn preview_renders_footnotes() {
    let html = render_markdown("a[^1]\n\n[^1]: note");
    assert!(html.contains("footnote"));
}
