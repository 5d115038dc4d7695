use obsidian_mirror::search::{
    order_newest_first, parse_tag_list, result_order, search_filters, strip_query_quotes, SortBy,
};

#[test]
fn relevance_keeps_rank_order() {
    assert_eq!(result_order(&vec![5, 9, 1], SortBy::Relevance), vec![0, 1, 2]);
}

#[test]
fn modified_puts_newest_first_and_keeps_ties_in_order() {
    assert_eq!(result_order(&vec![5, 9, 5, -3, 9], SortBy::Modified), vec![1, 4, 0, 2, 3]);
    assert_eq!(result_order(&vec![], SortBy::Modified), Vec::<usize>::new());
}

#[test]
fn stable_descending_order_of_keys() {
    assert_eq!(order_newest_first(&vec![1, 3, 2, 3]), vec![1, 3, 2, 0]);
}

#[test]
fn default_sort_is_relevance() {
    assert_eq!(SortBy::default(), SortBy::Relevance);
}

#[test]
fn quotes_and_backslashes_are_removed() {
    assert_eq!(strip_query_quotes("\"a\\b\" c"), "ab c");
}

#[test]
fn tag_parameter_parsing() {
    assert_eq!(parse_tag_list(" rust, ,go ,"), Some(vec!["rust".to_string(), "go".to_string()]));
    assert_eq!(parse_tag_list(" , "), None);
    assert_eq!(parse_tag_list(""), None);
}

#[test]
fn filters_drop_blank_parts() {
    let f = search_filters("  ", Some(vec!["t".to_string()]), Some(String::new()), Some(1), None);
    assert!(f.text.is_none());
    assert_eq!(f.tags, vec!["t".to_string()]);
    assert!(f.folder.is_none());
    assert_eq!(f.date_from, Some(1));
    let g = search_filters("q", None, Some("dir".to_string()), None, Some(2));
    assert_eq!(g.text.as_deref(), Some("q"));
    assert!(g.tags.is_empty());
    assert_eq!(g.folder.as_deref(), Some("dir"));
    assert_eq!(g.date_to, Some(2));
}
