use obsidian_mirror::domain::Frontmatter;
use obsidian_mirror::tags::extract_tags;

fn to_frontmatter(v: serde_yml::Value) -> Frontmatter {
    match v {
        serde_yml::Value::Null => Frontmatter::Null,
        serde_yml::Value::Bool(b) => Frontmatter::Bool(b),
        serde_yml::Value::Number(n) => Frontmatter::Number(n.to_string()),
        serde_yml::Value::String(s) => Frontmatter::Str(s),
        serde_yml::Value::Sequence(items) => {
            Frontmatter::Sequence(items.into_iter().map(to_frontmatter).collect())
        }
        serde_yml::Value::Mapping(m) => Frontmatter::Mapping(
            m.into_iter().map(|(k, v)| (Frontmatter::Str(k), to_frontmatter(v))).collect(),
        ),
        serde_yml::Value::Tagged(t) => {
            Frontmatter::Tagged(t.tag().to_string(), Box::new(to_frontmatter(t.value().clone())))
        }
    }
}

    #[test]
    fn test_hashtag_extraction() {
        let content = "This is a note with #tag1 and #tag2 in the text.";
        let frontmatter = Frontmatter::Null;
        let tags = extract_tags(content, &frontmatter);

        assert_eq!(tags.len(), 2);
        assert!(tags.contains(&"tag1".to_string()));
        assert!(tags.contains(&"tag2".to_string()));
    }

    #[test]
    fn test_hashtag_chinese() {
        let content = "这是一个带有 #中文标签 和 #测试 的笔记。";
        let frontmatter = Frontmatter::Null;
        let tags = extract_tags(content, &frontmatter);

        assert_eq!(tags.len(), 2);
        assert!(tags.contains(&"中文标签".to_string()));
        assert!(tags.contains(&"测试".to_string()));
    }

    #[test]
    fn test_hashtag_with_numbers_and_hyphens() {
        let content = "Tags: #tag-123, #my_tag, #test2024";
        let frontmatter = Frontmatter::Null;
        let tags = extract_tags(content, &frontmatter);

        assert_eq!(tags.len(), 3);
        assert!(tags.contains(&"tag-123".to_string()));
        assert!(tags.contains(&"my_tag".to_string()));
        assert!(tags.contains(&"test2024".to_string()));
    }

    #[test]
    fn test_hashtag_not_markdown_heading() {
        let content = "## This is a heading\n\nThis has #tag but not the heading.";
        let frontmatter = Frontmatter::Null;
        let tags = extract_tags(content, &frontmatter);

        assert_eq!(tags.len(), 1);
        assert_eq!(tags[0], "tag");
    }

    #[test]
    fn test_frontmatter_tags_array() {
        let yaml_str = r#"
tags: [rust, programming, obsidian]
"#;
        let frontmatter = to_frontmatter(serde_yml::from_str(yaml_str).unwrap());
        let content = "Content here.";

        let tags = extract_tags(content, &frontmatter);

        assert_eq!(tags.len(), 3);
        assert!(tags.contains(&"rust".to_string()));
        assert!(tags.contains(&"programming".to_string()));
        assert!(tags.contains(&"obsidian".to_string()));
    }

    #[test]
    fn test_frontmatter_tags_single() {
        let yaml_str = r#"
tags: important
"#;
        let frontmatter = to_frontmatter(serde_yml::from_str(yaml_str).unwrap());
        let content = "Content here.";

        let tags = extract_tags(content, &frontmatter);

        assert_eq!(tags.len(), 1);
        assert_eq!(tags[0], "important");
    }

    #[test]
    fn test_frontmatter_tag_singular() {
        let yaml_str = r#"
tag: [test, demo]
"#;
        let frontmatter = to_frontmatter(serde_yml::from_str(yaml_str).unwrap());
        let content = "Content here.";

        let tags = extract_tags(content, &frontmatter);

        assert_eq!(tags.len(), 2);
        assert!(tags.contains(&"test".to_string()));
        assert!(tags.contains(&"demo".to_string()));
    }

    #[test]
    fn test_combined_tags_frontmatter_and_hashtags() {
        let yaml_str = r#"
tags: [frontmatter-tag]
"#;
        let frontmatter = to_frontmatter(serde_yml::from_str(yaml_str).unwrap());
        let content = "# My Note\n\nThis has #inline-tag and #another-tag.";

        let tags = extract_tags(content, &frontmatter);

        assert_eq!(tags.len(), 3);
        assert!(tags.contains(&"frontmatter-tag".to_string()));
        assert!(tags.contains(&"inline-tag".to_string()));
        assert!(tags.contains(&"another-tag".to_string()));
    }

    #[test]
    fn test_duplicate_tags() {
        let yaml_str = r#"
tags: [duplicate]
"#;
        let frontmatter = to_frontmatter(serde_yml::from_str(yaml_str).unwrap());
        let content = "This has #duplicate again.";

        let tags = extract_tags(content, &frontmatter);

        // 应该去重，只有一个
        assert_eq!(tags.len(), 1);
        assert_eq!(tags[0], "duplicate");
    }

    #[test]
    fn test_empty_tags() {
        let yaml_str = r#"
tags: []
"#;
        let frontmatter = to_frontmatter(serde_yml::from_str(yaml_str).unwrap());
        let content = "No tags in content either.";

        let tags = extract_tags(content, &frontmatter);

        assert!(tags.is_empty());
    }

#[test]
fn frontmatter_tags_come_before_body_tags() {
    let fm = Frontmatter::Mapping(vec![(
        Frontmatter::Str("tags".to_string()),
        Frontmatter::Sequence(vec![Frontmatter::Str("b".to_string())]),
    )]);
    let tags = extract_tags("#a text", &fm);
    assert_eq!(tags, vec!["b".to_string(), "a".to_string()]);
}
