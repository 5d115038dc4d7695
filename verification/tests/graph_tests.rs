use obsidian_mirror::domain::{Frontmatter, Note};
use obsidian_mirror::graph::{generate_global_graph, generate_graph};
use obsidian_mirror::keyed::StrKeyMap;

fn make_note(title: &str, outgoing_links: Vec<&str>) -> Note {
    Note {
        path: format!("{}.md", title),
        title: title.to_string(),
        content_html: String::new(),
        backlinks: Vec::new(),
        tags: Vec::new(),
        toc: Vec::new(),
        mtime: 0,
        frontmatter: Frontmatter::Null,
        outgoing_links: outgoing_links.into_iter().map(|s| s.to_string()).collect(),
    }
}

fn build_notes_and_index(specs: &[(&str, Vec<&str>)]) -> (StrKeyMap<Note>, StrKeyMap<String>) {
    let mut notes = StrKeyMap::new();
    let mut link_index = StrKeyMap::new();
    for (title, links) in specs {
        let note = make_note(title, links.clone());
        link_index.insert(title.to_string(), note.path.clone());
        notes.insert(note.path.clone(), note);
    }
    (notes, link_index)
}

#[test]
fn test_graph_nonexistent_note_returns_empty() {
    let (notes, link_index) = build_notes_and_index(&[("A", vec![])]);
    let graph = generate_graph("不存在", &notes, &link_index, 2);
    assert!(graph.nodes.is_empty(), "不存在的笔记应返回空节点");
    assert!(graph.edges.is_empty(), "不存在的笔记应返回空边");
}

#[test]
fn test_graph_depth_1_includes_only_direct_links() {
    let (notes, link_index) =
        build_notes_and_index(&[("A", vec!["B"]), ("B", vec!["C"]), ("C", vec![])]);

    let graph = generate_graph("A", &notes, &link_index, 1);
    let node_labels: Vec<&str> = graph.nodes.iter().map(|n| n.label.as_str()).collect();

    assert!(node_labels.contains(&"A"), "中心节点 A 应在图谱中");
    assert!(node_labels.contains(&"B"), "直接链接 B 应在图谱中（深度 1）");
    assert!(!node_labels.contains(&"C"), "间接链接 C 不应在深度 1 的图谱中");
}

#[test]
fn test_graph_depth_2_includes_two_hops() {
    let (notes, link_index) =
        build_notes_and_index(&[("A", vec!["B"]), ("B", vec!["C"]), ("C", vec![])]);

    let graph = generate_graph("A", &notes, &link_index, 2);
    let node_labels: Vec<&str> = graph.nodes.iter().map(|n| n.label.as_str()).collect();

    assert!(node_labels.contains(&"A"), "中心节点 A 应在图谱中");
    assert!(node_labels.contains(&"B"), "一跳节点 B 应在图谱中");
    assert!(node_labels.contains(&"C"), "二跳节点 C 应在深度 2 的图谱中");
}

#[test]
fn test_graph_backlinks_included() {
    let (notes, link_index) = build_notes_and_index(&[("A", vec![]), ("D", vec!["A"])]);

    let graph = generate_graph("A", &notes, &link_index, 1);
    let node_labels: Vec<&str> = graph.nodes.iter().map(|n| n.label.as_str()).collect();

    assert!(node_labels.contains(&"D"), "反向链接节点 D 应出现在图谱中");
    let has_edge = graph.edges.iter().any(|e| e.from.contains("D") && e.to.contains("A"));
    assert!(has_edge, "应有从 D 到 A 的反向链接边");
}

#[test]
fn test_graph_isolated_node_not_included() {
    let (notes, link_index) =
        build_notes_and_index(&[("A", vec!["B"]), ("B", vec![]), ("E", vec![])]);

    let graph = generate_graph("A", &notes, &link_index, 2);
    let node_labels: Vec<&str> = graph.nodes.iter().map(|n| n.label.as_str()).collect();

    assert!(!node_labels.contains(&"E"), "孤立节点 E 不应出现在 A 的图谱中");
}

#[test]
fn test_graph_isolated_center_has_only_self() {
    let (notes, link_index) = build_notes_and_index(&[("Solo", vec![])]);

    let graph = generate_graph("Solo", &notes, &link_index, 2);

    assert_eq!(graph.nodes.len(), 1, "孤立中心笔记图谱应只有 1 个节点");
    assert!(graph.edges.is_empty(), "孤立中心笔记图谱不应有边");
}

#[test]
fn test_global_graph_includes_all_notes() {
    let (notes, link_index) =
        build_notes_and_index(&[("A", vec!["B"]), ("B", vec![]), ("Solo", vec![])]);

    let graph = generate_global_graph(&notes, &link_index, false);
    let labels: Vec<&str> = graph.nodes.iter().map(|n| n.label.as_str()).collect();

    assert!(labels.contains(&"A"), "A 应在全局图谱中");
    assert!(labels.contains(&"B"), "B 应在全局图谱中");
    assert!(labels.contains(&"Solo"), "孤立节点 Solo 应在全局图谱中（未隐藏孤立节点）");
}

#[test]
fn test_global_graph_hide_isolated() {
    let (notes, link_index) =
        build_notes_and_index(&[("A", vec!["B"]), ("B", vec![]), ("Solo", vec![])]);

    let graph = generate_global_graph(&notes, &link_index, true);
    let labels: Vec<&str> = graph.nodes.iter().map(|n| n.label.as_str()).collect();

    assert!(labels.contains(&"A"), "A 应在图谱中（有出链）");
    assert!(labels.contains(&"B"), "B 应在图谱中（有入链）");
    assert!(!labels.contains(&"Solo"), "孤立节点 Solo 应被隐藏");
}

#[test]
fn test_global_graph_contains_edges() {
    let (notes, link_index) =
        build_notes_and_index(&[("A", vec!["B"]), ("B", vec!["C"]), ("C", vec![])]);

    let graph = generate_global_graph(&notes, &link_index, false);
    assert!(graph.edges.len() >= 2, "全局图谱应包含 A→B 和 B→C 的边");
}

#[test]
fn test_graph_node_carries_tags() {
    let mut notes = StrKeyMap::new();
    let mut link_index = StrKeyMap::new();
    let mut note_a = make_note("A", vec!["B"]);
    note_a.tags = vec!["rust".to_string()];
    let note_b = make_note("B", vec![]);
    link_index.insert("A".to_string(), note_a.path.clone());
    link_index.insert("B".to_string(), note_b.path.clone());
    notes.insert(note_a.path.clone(), note_a);
    notes.insert(note_b.path.clone(), note_b);

    let graph = generate_global_graph(&notes, &link_index, false);
    let a_node = graph.nodes.iter().find(|n| n.label == "A");
    assert!(a_node.is_some(), "A 节点应存在");
    assert!(a_node.unwrap().tags.contains(&"rust".to_string()), "A 节点应携带 rust 标签");
}

#[test]
fn global_graph_mutual_links_weigh_two() {
    let (notes, link_index) = build_notes_and_index(&[("A", vec!["B", "B"]), ("B", vec!["A"]), ("C", vec!["A"])]);
    let graph = generate_global_graph(&notes, &link_index, false);
    assert_eq!(graph.edges.len(), 4);
    assert_eq!(graph.edges[0].from, "A.md");
    assert_eq!(graph.edges[0].to, "B.md");
    assert_eq!(graph.edges[0].weight, 2);
    assert_eq!(graph.edges[1].weight, 2);
    assert_eq!(graph.edges[2].weight, 2);
    assert_eq!(graph.edges[3].from, "C.md");
    assert_eq!(graph.edges[3].weight, 1);
}

#[test]
fn local_graph_node_order_is_breadth_first() {
    let (notes, link_index) =
        build_notes_and_index(&[("A", vec!["B"]), ("B", vec!["C"]), ("C", vec![])]);
    let graph = generate_graph("A", &notes, &link_index, 3);
    let ids: Vec<&str> = graph.nodes.iter().map(|n| n.id.as_str()).collect();
    assert_eq!(ids, vec!["A.md", "B.md", "C.md"]);
}

#[test]
fn global_edges_join_nodes_and_weigh_mutual_links() {
    let (notes, link_index) =
        build_notes_and_index(&[("A", vec!["B", "Gone"]), ("B", vec!["A", "C"]), ("C", vec![])]);
    let graph = generate_global_graph(&notes, &link_index, false);
    let ids: Vec<&str> = graph.nodes.iter().map(|n| n.id.as_str()).collect();
    assert_eq!(graph.edges.len(), 3);
    for e in &graph.edges {
        assert!(ids.contains(&e.from.as_str()) && ids.contains(&e.to.as_str()));
        let mutual = graph.edges.iter().any(|r| r.from == e.to && r.to == e.from);
        assert_eq!(e.weight, if mutual { 2 } else { 1 });
    }
}
