use obsidian_mirror::domain::SidebarNode;
use obsidian_mirror::sidebar::{find_first_file, flatten_sidebar};

fn dir(name: &str, children: Vec<SidebarNode>) -> SidebarNode {
    SidebarNode { name: name.to_string(), path: None, children }
}

fn file(name: &str, path: &str) -> SidebarNode {
    SidebarNode { name: name.to_string(), path: Some(path.to_string()), children: vec![] }
}

#[test]
fn first_file_is_first_listed_file() {
    let forest = vec![dir("a", vec![dir("b", vec![]), file("x", "a/x.md")]), file("y", "y.md")];
    let flat = flatten_sidebar(&forest);
    assert_eq!(flat.len(), 4);
    assert_eq!(flat[0].depth, 0);
    let first_listed = flat.iter().find(|f| f.path.is_some()).unwrap();
    let first = find_first_file(&forest).unwrap();
    assert_eq!(first.path.as_deref(), Some("a/x.md"));
    assert_eq!(first_listed.path.as_deref(), first.path.as_deref());
    assert_eq!(first_listed.depth, 1);
    assert!(find_first_file(&vec![dir("e", vec![])]).is_none());
}
