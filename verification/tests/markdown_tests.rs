use obsidian_mirror::domain::{Frontmatter, TocItem};
use obsidian_mirror::markdown::MarkdownProcessor;

fn process(content: &str) -> (String, Vec<String>, Vec<String>, Frontmatter, Vec<TocItem>) {
    MarkdownProcessor::process(content)
}

    #[test]
    fn test_simple_markdown_to_html() {
        let content = "# Hello World\n\nThis is a **test**.";
        let (html, links, _tags, frontmatter, toc) = process(content);

        assert!(html.contains("<h1"));
        assert!(html.contains("Hello World</h1>"));
        assert!(html.contains("<strong>test</strong>"));
        assert!(links.is_empty());
        assert!(frontmatter.is_null());
        assert_eq!(toc.len(), 1);
        assert_eq!(toc[0].level, 1);
        assert_eq!(toc[0].text, "Hello World");
    }

    #[test]
    fn test_wikilink_basic() {
        let content = "This links to [[Target Note]].";
        let (html, links, _tags, _, _toc) = process(content);

        assert!(
            html.contains("/doc/Target%20Note"),
            "HTML 应包含编码后的链接"
        );
        assert_eq!(links.len(), 1);
        assert_eq!(links[0], "Target Note");
    }

    #[test]
    fn test_wikilink_with_label() {
        let content = "Check out [[Target Note|this amazing note]].";
        let (html, links, _tags, _, _toc) = process(content);

        assert!(html.contains("this amazing note"), "HTML 应包含自定义标签");
        assert!(
            html.contains("/doc/Target%20Note"),
            "HTML 应包含编码后的目标"
        );
        assert_eq!(links.len(), 1);
        assert_eq!(links[0], "Target Note");
    }

    #[test]
    fn test_wikilink_multiple() {
        let content = "Link to [[Note A]] and [[Note B]].";
        let (html, links, _tags, _, _toc) = process(content);

        assert_eq!(links.len(), 2);
        assert_eq!(links[0], "Note A");
        assert_eq!(links[1], "Note B");
        assert!(html.contains("/doc/Note%20A"));
        assert!(html.contains("/doc/Note%20B"));
    }

    #[test]
    fn test_wikilink_chinese_characters() {
        let content = "参考 [[中文笔记]] 和 [[Another 笔记|显示文本]].";
        let (html, links, _tags, _, _toc) = process(content);

        assert_eq!(links.len(), 2);
        assert_eq!(links[0], "中文笔记");
        assert_eq!(links[1], "Another 笔记");
        assert!(
            html.contains("%E4%B8%AD%E6%96%87%E7%AC%94%E8%AE%B0"),
            "中文应正确编码"
        );
    }

    #[test]
    fn test_image_wikilink() {
        let content = "![[image.png]]";
        let (html, links, _tags, _, _toc) = process(content);

        assert!(html.contains("<img"), "应生成 img 标签");
        assert!(html.contains("/assets/image%2Epng"), "图片应指向 /assets");
        assert!(links.is_empty(), "图片链接不应被记录为笔记链接");
    }

    #[test]
    fn test_image_wikilink_with_alt() {
        let content = "![[screenshot.jpg|My Screenshot]]";
        let (html, links, _tags, _, _toc) = process(content);

        assert!(html.contains("My Screenshot"), "应包含自定义 alt 文本");
        assert!(html.contains("/assets/screenshot%2Ejpg"));
        assert!(links.is_empty());
    }

    #[test]
    fn test_file_wikilink_pdf() {
        let content = "[[document.pdf|Read this PDF]]";
        let (html, links, _tags, _, _toc) = process(content);

        assert!(
            html.contains("/assets/document%2Epdf"),
            "PDF 应指向 /assets"
        );
        assert!(html.contains("Read this PDF"));
        assert!(links.is_empty(), "文件链接不应被记录为笔记链接");
    }

    #[test]
    fn test_markdown_image_relative_path() {
        let content = "![My Image](images/photo.png)";
        let (html, _links, _tags, _, _toc) = process(content);

        assert!(
            html.contains("/assets/images%2Fphoto%2Epng"),
            "相对路径应转换为 /assets"
        );
    }

    #[test]
    fn test_markdown_image_absolute_url() {
        let content = "![Remote Image](https://example.com/image.png)";
        let (html, _links, _tags, _, _toc) = process(content);

        assert!(
            html.contains("https://example.com/image.png"),
            "绝对 URL 应保持不变"
        );
        assert!(!html.contains("/assets/"), "绝对 URL 不应转换为 /assets");
    }

    #[test]
    fn test_markdown_link_to_pdf() {
        let content = "[Download PDF](files/report.pdf)";
        let (html, _links, _tags, _, _toc) = process(content);

        assert!(
            html.contains("/assets/files%2Freport%2Epdf"),
            "PDF 链接应转换为 /assets"
        );
    }

    #[test]
    fn test_frontmatter_extraction() {
        let content = r#"---
title: My Note
tags: [test, example]
date: 2024-01-01
---

# Content Here"#;

        let (html, _links, _tags, frontmatter, toc) = process(content);

        assert!(!frontmatter.is_null(), "应提取到 frontmatter");
        assert!(html.contains("Content Here</h1>"), "正文应正确解析");
        assert!(
            !html.contains("---"),
            "frontmatter 分隔符不应出现在 HTML 中"
        );
        assert_eq!(toc.len(), 1);
        assert_eq!(toc[0].text, "Content Here");

        // 验证 frontmatter 内容
        if let Frontmatter::Mapping(map) = frontmatter {
            assert!(map.iter().any(|(k, _)| matches!(k, Frontmatter::Str(s) if s == "title")));
        } else {
            panic!("frontmatter 应该是一个 mapping");
        }
    }

    #[test]
    fn test_frontmatter_with_windows_line_endings() {
        let content = "---\r\ntitle: Test\r\n---\r\n\r\nContent";
        let (html, _links, _tags, frontmatter, _toc) = process(content);

        assert!(!frontmatter.is_null(), "应处理 Windows 行结尾");
        assert!(html.contains("Content"));
    }

    #[test]
    fn test_no_frontmatter() {
        let content = "Just regular content without frontmatter.";
        let (_html, _links, _tags, frontmatter, _toc) = process(content);

        assert!(frontmatter.is_null(), "无 frontmatter 时应返回 Null");
    }

    #[test]
    fn test_invalid_frontmatter() {
        let content = r#"---
this is not: valid: yaml::
---

Content"#;

        let (html, _links, _tags, frontmatter, _toc) = process(content);

        assert!(frontmatter.is_null(), "无效的 YAML 应返回 Null");
        assert!(html.contains("Content"), "正文仍应正常解析");
    }

    #[test]
    fn test_markdown_extensions() {
        // 测试表格
        let table_content = r#"| Header 1 | Header 2 |
|----------|----------|
| Cell 1   | Cell 2   |"#;
        let (html, _tags, _, _, _toc) = process(table_content);
        assert!(html.contains("<table"), "应支持表格");

        // 测试删除线
        let strikethrough_content = "~~deleted text~~";
        let (html, _tags, _, _, _toc) = process(strikethrough_content);
        assert!(html.contains("<del>deleted text</del>"), "应支持删除线");

        // 测试任务列表
        let tasklist_content = "- [ ] Todo item\n- [x] Done item";
        let (html, _tags, _, _, _toc) = process(tasklist_content);
        assert!(html.contains("checkbox"), "应支持任务列表");
    }

    #[test]
    fn test_mixed_wikilinks_and_markdown() {
        let content = r#"# My Note

Check [[Related Note]] and see ![screenshot](images/test.png).

Also read [[Another Note|this one]]."#;

        let (html, links, _tags, _, _toc) = process(content);

        assert_eq!(links.len(), 2);
        assert!(html.contains("My Note</h1>"));
        assert!(html.contains("/doc/Related%20Note"));
        assert!(html.contains("/doc/Another%20Note"));
        assert!(html.contains("/assets/images%2Ftest%2Epng"));
    }

    #[test]
    fn test_special_characters_in_wikilinks() {
        let content = "[[Note (with) [brackets] & special]]";
        let (html, links, _tags, _, _toc) = process(content);

        assert_eq!(links.len(), 1);
        assert_eq!(links[0], "Note (with) [brackets] & special");
        // URL 编码应处理特殊字符
        assert!(html.contains("/doc/"));
    }

    #[test]
    fn test_empty_content() {
        let content = "";
        let (html, links, _tags, frontmatter, toc) = process(content);

        assert!(html.is_empty() || html.trim().is_empty());
        assert!(links.is_empty());
        assert!(frontmatter.is_null());
        assert!(toc.is_empty());
    }

    #[test]
    fn test_url_encoding() {
        let content = "[[File Name With Spaces]]";
        let (html, links, _tags, _, _toc) = process(content);

        assert_eq!(links[0], "File Name With Spaces");
        assert!(
            html.contains("File%20Name%20With%20Spaces"),
            "空格应编码为 %20"
        );
    }

    #[test]
    fn test_image_formats() {
        let formats = vec![
            ("image.png", true),
            ("photo.jpg", true),
            ("pic.jpeg", true),
            ("animated.gif", true),
            ("icon.svg", true),
            ("modern.webp", true),
            ("document.pdf", false),
        ];

        for (filename, is_image) in formats {
            let content = format!("![[{}]]", filename);
            let (html, _links, _tags, _, _toc) = process(&content);

            if is_image {
                assert!(html.contains("<img"), "{} 应被识别为图片", filename);
            } else {
                assert!(html.contains("<a "), "{} 不应被识别为图片", filename);
            }
        }
    }

    #[test]
    fn test_real_world_image() {
        let content = r"## 第四章節 角色攻略（2）

### 美月姐姐

![[冬日狂想曲全角色攻略 附图41.jpg]]

美月姐姐第一階段";

        let (html, _, _, _, _) = process(content);

        println!("\n=== 输入 ===\n{}\n", content);
        println!("=== 输出 HTML ===\n{}\n", html);

        // 检查 HTML 中不应该有裸露的文件名
        let cleaned = html.replace("src=\"", "").replace("alt=\"", "");
        assert!(
            !cleaned.contains("冬日狂想曲全角色攻略 附图41.jpg"),
            "HTML 中不应该有裸露的文件名文本"
        );
    }

    #[test]
    fn test_mermaid_code_block() {
        let content = r#"# 流程图测试

```mermaid
graph TD
    A[开始] --> B{判断条件}
    B -->|是| C[执行操作]
    B -->|否| D[结束]
    C --> D
```

这是一个简单的流程图。"#;

        let (html, _links, _tags, _, _toc) = process(content);

        println!("\n=== Mermaid 测试输出 ===\n{}\n", html);

        // 检查 HTML 中应该包含 mermaid class
        assert!(
            html.contains("<div class=\"mermaid\">"),
            "应生成 mermaid div"
        );
        assert!(html.contains("graph TD"), "应包含 Mermaid 图表定义");
        assert!(html.contains("开始"), "应保留中文内容");
        assert!(!html.contains("```"), "不应包含代码块标记");
        assert!(
            !html.contains("<pre><code"),
            "Mermaid 代码块不应渲染为普通代码块"
        );
    }

    #[test]
    fn test_regular_code_block() {
        let content = r#"# 代码示例

```rust
fn main() {
    println!("Hello, world!");
}
```

普通代码块测试。"#;

        let (html, _links, _tags, _, _toc) = process(content);

        println!("\n=== 普通代码块测试输出 ===\n{}\n", html);

        // 检查普通代码块应该正常渲染
        assert!(html.contains("<pre><code"), "应生成普通代码块");
        assert!(html.contains("language-rust"), "应包含语言标识");
        assert!(html.contains("fn main()"), "应包含代码内容");
        assert!(
            !html.contains("<div class=\"mermaid\">"),
            "不应渲染为 mermaid"
        );
    }

    #[test]
    fn test_heading_xss_escape() {
        // pulldown-cmark 将 markdown 中的 HTML 实体（如 &lt;）解码为文本字符 <，
        // 这些字符会出现在 Event::Text 中，插入 HTML 前必须再次转义，防止 XSS。
        // 例如：# Note &lt;tag&gt; → Event::Text("Note <tag>") → 需转义为 &lt;tag&gt;
        let content = "# Note &lt;injected&gt; & \"test\"";
        let (html, _links, _tags, _, toc) = process(content);

        // 转义后的 HTML 不应含有原始的 < 或 > 或未转义的 &
        assert!(
            !html.contains("<injected>"),
            "标题中解码后的 < > 字符应被 html_escape 重新转义"
        );
        // 应该包含转义后的形式
        assert!(
            html.contains("&lt;injected&gt;"),
            "< > 应被转义为 &lt; &gt;"
        );
        assert!(
            html.contains("&amp;"),
            "& 应被转义为 &amp;"
        );
        // TOC 中保留解码后的原始文本（供模板自行处理）
        assert!(
            toc[0].text.contains('<'),
            "TOC 保留原始文本，不二次转义"
        );
    }

#[test]
fn heading_ids_are_numbered() {
    assert_eq!(MarkdownProcessor::generate_heading_id("Hello World", 0), "Hello-World-0");
    assert_eq!(MarkdownProcessor::generate_heading_id("!!", 3), "heading-3");
}

#[test]
fn html_escape_escapes_the_four_characters() {
    assert_eq!(MarkdownProcessor::html_escape("<a href=\"x\">&</a>"), "&lt;a href=&quot;x&quot;&gt;&amp;&lt;/a&gt;");
}

#[test]
fn frontmatter_split_gives_body_and_yaml() {
    let (body, yaml) = MarkdownProcessor::extract_frontmatter("---\ntitle: T\n---\nBody");
    assert!(yaml.unwrap().contains("title: T"));
    assert!(body.contains("Body"));
    assert!(!body.contains("title"));
}

#[test]
fn toc_ids_are_numbered_and_distinct() {
    let (_, _, _, _, toc) = process("# Same\n\n## Same\n\n### a-1\n");
    let ids: Vec<&str> = toc.iter().map(|t| t.id.as_str()).collect();
    assert_eq!(ids, vec!["Same-1", "Same-2", "a-1-3"]);
}
