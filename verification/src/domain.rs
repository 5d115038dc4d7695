//! The data that the mirror keeps about a vault: notes, their table of contents,
//! the sidebar tree and the link graph.
use vstd::prelude::*;

verus! {

/// A YAML frontmatter value, as the YAML parser hands it over.
///
/// Numbers keep their textual form; a mapping keeps its entries in document order.
pub enum Frontmatter {
    Null,
    Bool(bool),
    Number(String),
    Str(String),
    Sequence(Vec<Frontmatter>),
    Mapping(Vec<(Frontmatter, Frontmatter)>),
    Tagged(String, Box<Frontmatter>),
}

impl Frontmatter {
    /// Whether the value is YAML `null`.
    pub fn is_null(&self) -> (b: bool)
        ensures
            b == (*self is Null),
    {
        match self {
            Frontmatter::Null => true,
            _ => false,
        }
    }
}

/// One entry of a note's table of contents.
pub struct TocItem {
    /// Heading level, 1 to 6.
    pub level: u8,
    /// Heading text.
    pub text: String,
    /// Anchor id of the heading.
    pub id: String,
}

/// One step of the breadcrumb trail above a note.
pub struct BreadcrumbItem {
    pub name: String,
    /// The link target; `None` for a step that is not a link.
    pub path: Option<String>,
}

/// A processed note.
pub struct Note {
    /// Path relative to the vault root, with `/` separators (e.g. `folder/note.md`).
    pub path: String,
    pub title: String,
    pub content_html: String,
    pub backlinks: Vec<String>,
    pub tags: Vec<String>,
    pub toc: Vec<TocItem>,
    /// Modification time, in nanoseconds since the Unix epoch.
    pub mtime: u128,
    pub frontmatter: Frontmatter,
    /// Titles of the notes that this note links to, in order of appearance.
    pub outgoing_links: Vec<String>,
}

/// A node of the sidebar tree: a directory (no path) or a file (with its path).
pub struct SidebarNode {
    pub name: String,
    pub path: Option<String>,
    pub children: Vec<SidebarNode>,
}

/// A sidebar node flattened for rendering, with its depth in the tree.
pub struct FlatNode {
    pub name: String,
    pub path: Option<String>,
    pub depth: usize,
}

impl SidebarNode {
    /// A directory node without children.
    pub fn new_dir(name: String) -> (n: Self)
        ensures
            n.name == name,
            n.path is None,
            n.children@.len() == 0,
    {
        SidebarNode { name, path: None, children: Vec::new() }
    }

    /// A file node without children.
    pub fn new_file(name: String, path: String) -> (n: Self)
        ensures
            n.name == name,
            n.path == Some(path),
            n.children@.len() == 0,
    {
        SidebarNode { name, path: Some(path), children: Vec::new() }
    }
}

/// A node of the link graph.
pub struct GraphNode {
    /// Node id: the note's path.
    pub id: String,
    /// Label: the note's title.
    pub label: String,
    /// Hover text: the note's title.
    pub title: String,
    pub tags: Vec<String>,
    /// Modification time, in seconds since the Unix epoch.
    pub mtime: i64,
}

/// An edge of the link graph, from the linking note to the linked one.
pub struct GraphEdge {
    pub from: String,
    pub to: String,
    /// 2 when the two notes link to each other, 1 otherwise.
    pub weight: u32,
}

/// A link graph.
pub struct GraphData {
    pub nodes: Vec<GraphNode>,
    pub edges: Vec<GraphEdge>,
}

} // verus!
