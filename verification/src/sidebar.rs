//! The sidebar: a directory tree of the notes, built from their paths.
use vstd::prelude::*;
use crate::config::views;
use crate::domain::{FlatNode, Note, SidebarNode};
use crate::keyed::StrKeyMap;
use crate::order::{sort_strings, str_le};
use crate::text::{split_on, str_to_chars, chars_to_string};

verus! {

/// The mathematical form of a sidebar node.
pub struct SideTree {
    pub name: Seq<char>,
    pub path: Option<Seq<char>>,
    pub children: Seq<SideTree>,
}

/// The view of an optional string.
pub open spec fn opt_view(o: Option<String>) -> Option<Seq<char>> {
    match o {
        Some(s) => Some(s@),
        None => None,
    }
}

impl SidebarNode {
    /// The tree that this node denotes.
    pub open spec fn tree(&self) -> SideTree
        decreases self,
    {
        SideTree {
            name: self.name@,
            path: opt_view(self.path),
            children: Seq::new(
                self.children@.len(),
                |i: int|
                    if 0 <= i < self.children@.len() {
                        self.children@[i].tree()
                    } else {
                        SideTree { name: Seq::empty(), path: None, children: Seq::empty() }
                    },
            ),
        }
    }
}

/// The trees of a sequence of nodes.
pub open spec fn trees(v: Seq<SidebarNode>) -> Seq<SideTree> {
    Seq::new(
        v.len(),
        |i: int|
            if 0 <= i < v.len() {
                v[i].tree()
            } else {
                SideTree { name: Seq::empty(), path: None, children: Seq::empty() }
            },
    )
}

/// The position of the first directory (a node without path) named `name`, or -1.
pub open spec fn first_dir(nodes: Seq<SideTree>, name: Seq<char>) -> int
    decreases nodes.len(),
{
    if nodes.len() == 0 {
        -1
    } else {
        let r = first_dir(nodes.drop_last(), name);
        if r >= 0 {
            r
        } else if nodes.last().name == name && nodes.last().path is None {
            nodes.len() - 1
        } else {
            -1
        }
    }
}

/// Inserting a file reached by the path components `parts`: the last component becomes
/// a file node named `title`; each earlier component is a directory, reused when one of
/// that name exists at its level and appended otherwise.
pub open spec fn tree_insert(
    nodes: Seq<SideTree>,
    parts: Seq<Seq<char>>,
    title: Seq<char>,
    full: Seq<char>,
) -> Seq<SideTree>
    decreases parts.len(),
{
    if parts.len() == 0 {
        nodes
    } else if parts.len() == 1 {
        nodes.push(SideTree { name: title, path: Some(full), children: Seq::empty() })
    } else {
        let i = first_dir(nodes, parts[0]);
        if i >= 0 {
            nodes.update(
                i,
                SideTree {
                    name: nodes[i].name,
                    path: nodes[i].path,
                    children: tree_insert(nodes[i].children, parts.drop_first(), title, full),
                },
            )
        } else {
            nodes.push(
                SideTree {
                    name: parts[0],
                    path: None,
                    children: tree_insert(Seq::empty(), parts.drop_first(), title, full),
                },
            )
        }
    }
}

/// The sidebar of the notes stored under the keys `keys`, inserted in that order.
pub open spec fn sidebar_of(keys: Seq<Seq<char>>, notes: Map<Seq<char>, Note>) -> Seq<SideTree>
    decreases keys.len(),
{
    if keys.len() == 0 {
        Seq::empty()
    } else {
        tree_insert(
            sidebar_of(keys.drop_last(), notes),
            split_on(keys.last(), '/'),
            notes[keys.last()].title@,
            keys.last(),
        )
    }
}

/// At every level of a forest no two directory nodes (nodes without a path) share a
/// name.
pub open spec fn dirs_distinct(nodes: Seq<SideTree>) -> bool
    decreases nodes,
{
    &&& forall|i: int, j: int|
        0 <= i < j < nodes.len() && (#[trigger] nodes[i]).path is None && (#[trigger] nodes[j]).path is None ==> nodes[i].name
            != nodes[j].name
    &&& forall|i: int| 0 <= i < nodes.len() ==> dirs_distinct(#[trigger] nodes[i].children)
}

/// What the directory search finds is a directory of that name, and when it finds none
/// there is no such directory.
proof fn lemma_first_dir(nodes: Seq<SideTree>, name: Seq<char>)
    ensures
        first_dir(nodes, name) >= 0 ==> first_dir(nodes, name) < nodes.len() && nodes[first_dir(nodes, name)].path is None
            && nodes[first_dir(nodes, name)].name == name,
        first_dir(nodes, name) < 0 ==> forall|i: int|
            0 <= i < nodes.len() ==> !((#[trigger] nodes[i]).path is None && nodes[i].name == name),
    decreases nodes.len(),
{
    if nodes.len() > 0 {
        let prev = nodes.drop_last();
        lemma_first_dir(prev, name);
        if first_dir(prev, name) >= 0 {
            assert(nodes[first_dir(prev, name)] == prev[first_dir(prev, name)]);
        } else {
            assert forall|i: int| 0 <= i < nodes.len() - 1 implies !((#[trigger] nodes[i]).path is None && nodes[i].name
                == name) by {
                assert(nodes[i] == prev[i]);
            }
        }
    }
}

/// Inserting a file keeps the directory names of every level distinct: a directory that
/// exists is reused, and a new one is made only where none of that name exists.
pub proof fn lemma_insert_keeps_dirs_distinct(
    nodes: Seq<SideTree>,
    parts: Seq<Seq<char>>,
    title: Seq<char>,
    full: Seq<char>,
)
    requires
        dirs_distinct(nodes),
    ensures
        dirs_distinct(tree_insert(nodes, parts, title, full)),
    decreases parts.len(),
{
    let r = tree_insert(nodes, parts, title, full);
    if parts.len() == 1 {
        let leaf = SideTree { name: title, path: Some(full), children: Seq::empty() };
        assert(r == nodes.push(leaf));
        assert(dirs_distinct(leaf.children));
        assert forall|i: int| 0 <= i < r.len() implies dirs_distinct(#[trigger] r[i].children) by {
            if i < nodes.len() {
                assert(r[i] == nodes[i]);
            }
        }
    } else if parts.len() > 1 {
        let k = first_dir(nodes, parts[0]);
        lemma_first_dir(nodes, parts[0]);
        if k >= 0 {
            let sub = tree_insert(nodes[k].children, parts.drop_first(), title, full);
            assert(dirs_distinct(nodes[k].children));
            lemma_insert_keeps_dirs_distinct(nodes[k].children, parts.drop_first(), title, full);
            let node = SideTree { name: nodes[k].name, path: nodes[k].path, children: sub };
            assert(r == nodes.update(k, node));
            assert forall|i: int, j: int|
                0 <= i < j < r.len() && (#[trigger] r[i]).path is None && (#[trigger] r[j]).path is None implies r[i].name
                != r[j].name by {
                assert(nodes[i].path is None && nodes[j].path is None);
            }
            assert forall|i: int| 0 <= i < r.len() implies dirs_distinct(#[trigger] r[i].children) by {
                if i != k {
                    assert(r[i] == nodes[i]);
                }
            }
        } else {
            let sub = tree_insert(Seq::empty(), parts.drop_first(), title, full);
            assert(dirs_distinct(Seq::<SideTree>::empty()));
            lemma_insert_keeps_dirs_distinct(Seq::empty(), parts.drop_first(), title, full);
            let node = SideTree { name: parts[0], path: None, children: sub };
            assert(r == nodes.push(node));
            assert forall|i: int, j: int|
                0 <= i < j < r.len() && (#[trigger] r[i]).path is None && (#[trigger] r[j]).path is None implies r[i].name
                != r[j].name by {
                if j == nodes.len() {
                    assert(r[i] == nodes[i]);
                } else {
                    assert(r[i] == nodes[i] && r[j] == nodes[j]);
                }
            }
            assert forall|i: int| 0 <= i < r.len() implies dirs_distinct(#[trigger] r[i].children) by {
                if i < nodes.len() {
                    assert(r[i] == nodes[i]);
                }
            }
        }
    }
}

/// In the sidebar of any notes no two directories of one level share a name, at every
/// level: notes under one folder sit under a single directory node.
pub proof fn lemma_sidebar_dirs_distinct(keys: Seq<Seq<char>>, notes: Map<Seq<char>, Note>)
    ensures
        dirs_distinct(sidebar_of(keys, notes)),
    decreases keys.len(),
{
    if keys.len() == 0 {
        assert(dirs_distinct(Seq::<SideTree>::empty()));
    } else {
        lemma_sidebar_dirs_distinct(keys.drop_last(), notes);
        lemma_insert_keeps_dirs_distinct(
            sidebar_of(keys.drop_last(), notes),
            split_on(keys.last(), '/'),
            notes[keys.last()].title@,
            keys.last(),
        );
    }
}

/// The keys of a note map, in the map's entry order.
pub open spec fn key_views(m: StrKeyMap<Note>) -> Seq<Seq<char>> {
    m.entries().map_values(|e: (String, Note)| e.0@)
}

/// The keys of a note map in ascending order; each is a key of the map.
pub fn sorted_keys(notes: &StrKeyMap<Note>) -> (r: Vec<String>)
    ensures
        views(r@) == key_views(*notes).sort_by(str_le()),
        forall|x: Seq<char>| #[trigger] views(r@).contains(x) ==> notes@.contains_key(x),
{
    let mut keys: Vec<String> = Vec::new();
    let mut i: usize = 0;
    while i < notes.len()
        invariant
            i <= notes.entries().len(),
            views(keys@) == key_views(*notes).take(i as int),
        decreases notes.entries().len() - i,
    {
        let ghost pre = views(keys@);
        let key = notes.key_at(i).clone();
        keys.push(key);
        proof {
            assert(views(keys@) =~= pre.push(notes.entries()[i as int].0@));
            assert(key_views(*notes).take(i + 1) =~= key_views(*notes).take(i as int).push(
                key_views(*notes)[i as int],
            ));
        }
        i += 1;
    }
    assert(key_views(*notes).take(notes.entries().len() as int) =~= key_views(*notes));
    let sorted = sort_strings(keys);
    proof {
        crate::order::lemma_str_le_total();
        key_views(*notes).lemma_sort_by_ensures(str_le());
    }
    proof {
        assert forall|x: Seq<char>| #[trigger] views(sorted@).contains(x) implies notes@.contains_key(x) by {
            assert(key_views(*notes).contains(x));
            let j = choose|j: int| 0 <= j < key_views(*notes).len() && key_views(*notes)[j] == x;
            notes.lemma_view_is_entries();
            assert(notes.entries()[j].0@ == x);
            assert(crate::keyed::has_key(notes.entries(), x));
        }
    }
    sorted
}

/// The sidebar tree of all notes: the notes are inserted in ascending order of their
/// keys, each at the position given by the `/`-separated components of its key.
pub fn build_sidebar(notes: &StrKeyMap<Note>) -> (r: Vec<SidebarNode>)
    ensures
        trees(r@) == sidebar_of(key_views(*notes).sort_by(str_le()), notes@),
        dirs_distinct(trees(r@)),
{
    proof {
        lemma_sidebar_dirs_distinct(key_views(*notes).sort_by(str_le()), notes@);
    }
    let sorted = sorted_keys(notes);
    let mut roots: Vec<SidebarNode> = Vec::new();
    let mut k: usize = 0;
    assert(trees(roots@) =~= sidebar_of(views(sorted@).take(0), notes@));
    while k < sorted.len()
        invariant
            k <= sorted@.len(),
            views(sorted@) == key_views(*notes).sort_by(str_le()),
            trees(roots@) == sidebar_of(views(sorted@).take(k as int), notes@),
            forall|x: Seq<char>| #[trigger] views(sorted@).contains(x) ==> notes@.contains_key(x),
        decreases sorted@.len() - k,
    {
        let path = &sorted[k];
        assert(views(sorted@).contains(path@)) by {
            assert(views(sorted@)[k as int] == path@);
        }
        let idx = notes.find(path.as_str());
        let j = idx.unwrap();
        let title = notes.value_at(j).title.clone();
        let parts = split_path(path);
        insert_into_tree(&mut roots, &parts, 0, &title, path);
        proof {
            assert(views(parts@).skip(0) =~= views(parts@));
            let s = views(sorted@).take(k + 1);
            assert(s.drop_last() =~= views(sorted@).take(k as int));
            assert(s.last() == path@);
        }
        k += 1;
    }
    assert(views(sorted@).take(sorted@.len() as int) =~= views(sorted@));
    roots
}

/// The `/`-separated components of a path.
pub fn split_path(path: &String) -> (parts: Vec<String>)
    ensures
        views(parts@) == split_on(path@, '/'),
{
    let v = str_to_chars(path.as_str());
    let mut parts: Vec<String> = Vec::new();
    let mut cur: Vec<char> = Vec::new();
    let mut i: usize = 0;
    assert(v@.take(0) =~= Seq::<char>::empty());
    while i < v.len()
        invariant
            i <= v.len(),
            v@ == path@,
            views(parts@).push(cur@) == split_on(v@.take(i as int), '/'),
        decreases v.len() - i,
    {
        let c = v[i];
        let ghost prev = views(parts@).push(cur@);
        if c == '/' {
            parts.push(chars_to_string(&cur));
            cur = Vec::new();
            assert(views(parts@).push(cur@) =~= prev.push(Seq::empty()));
        } else {
            cur.push(c);
            assert(views(parts@).push(cur@) =~= prev.update(prev.len() - 1, prev.last().push(c)));
        }
        assert(v@.take(i + 1).drop_last() =~= v@.take(i as int));
        i += 1;
    }
    parts.push(chars_to_string(&cur));
    assert(v@.take(v@.len() as int) =~= v@);
    parts
}

/// The position of the first directory named `name` among `nodes`, or `nodes.len()`.
fn find_dir(nodes: &Vec<SidebarNode>, name: &String) -> (r: usize)
    ensures
        r <= nodes@.len(),
        r < nodes@.len() ==> r as int == first_dir(trees(nodes@), name@),
        r == nodes@.len() ==> first_dir(trees(nodes@), name@) == -1,
{
    let mut i: usize = 0;
    while i < nodes.len()
        invariant
            i <= nodes@.len(),
            first_dir(trees(nodes@).take(i as int), name@) == -1,
        decreases nodes@.len() - i,
    {
        proof {
            assert(trees(nodes@).take(i + 1).drop_last() =~= trees(nodes@).take(i as int));
        }
        if nodes[i].path.is_none() && nodes[i].name == *name {
            proof {
                lemma_first_dir_prefix(trees(nodes@), name@, i + 1);
            }
            return i;
        }
        i += 1;
    }
    assert(trees(nodes@).take(nodes@.len() as int) =~= trees(nodes@));
    nodes.len()
}

/// A hit within a prefix is the first hit of the whole sequence.
proof fn lemma_first_dir_prefix(nodes: Seq<SideTree>, name: Seq<char>, n: int)
    requires
        0 <= n <= nodes.len(),
        first_dir(nodes.take(n), name) >= 0,
    ensures
        first_dir(nodes, name) == first_dir(nodes.take(n), name),
    decreases nodes.len(),
{
    if n < nodes.len() {
        assert(nodes.drop_last().take(n) =~= nodes.take(n));
        lemma_first_dir_prefix(nodes.drop_last(), name, n);
    } else {
        assert(nodes.take(n) =~= nodes);
    }
}

/// Inserts the file `full` (shown as `title`) at the position given by `parts[k..]`.
fn insert_into_tree(
    nodes: &mut Vec<SidebarNode>,
    parts: &Vec<String>,
    k: usize,
    title: &String,
    full: &String,
)
    requires
        k <= parts@.len(),
    ensures
        trees(final(nodes)@) == tree_insert(
            trees(old(nodes)@),
            views(parts@).skip(k as int),
            title@,
            full@,
        ),
    decreases parts@.len() - k,
{
    let ghost rest = views(parts@).skip(k as int);
    if k >= parts.len() {
        return;
    }
    let ghost before = nodes@;
    if k + 1 == parts.len() {
        let leaf = SidebarNode::new_file(title.clone(), full.clone());
        assert(leaf.tree().children =~= Seq::<SideTree>::empty());
        nodes.push(leaf);
        proof {
            assert(trees(nodes@) =~= trees(before).push(
                SideTree { name: title@, path: Some(full@), children: Seq::empty() },
            ));
        }
        return;
    }
    let current = &parts[k];
    assert(rest[0] == current@);
    assert(rest.drop_first() =~= views(parts@).skip(k + 1));
    let idx = find_dir(nodes, current);
    if idx < nodes.len() {
        let mut node = nodes.remove(idx);
        let ghost old_node = node;
        insert_into_tree(&mut node.children, parts, k + 1, title, full);
        nodes.insert(idx, node);
        proof {
            assert(nodes@ =~= before.update(idx as int, node));
            assert(trees(before)[idx as int] == old_node.tree());
            assert(node.tree().children =~= trees(node.children@));
            assert(old_node.tree().children =~= trees(old_node.children@));
            assert(trees(nodes@) =~= trees(before).update(idx as int, node.tree()));
        }
    } else {
        let mut dir = SidebarNode::new_dir(current.clone());
        let ghost empty_dir = dir;
        insert_into_tree(&mut dir.children, parts, k + 1, title, full);
        nodes.push(dir);
        proof {
            assert(trees(empty_dir.children@) =~= Seq::<SideTree>::empty());
            assert(dir.tree().children =~= trees(dir.children@));
            assert(trees(nodes@) =~= trees(before).push(dir.tree()));
        }
    }
}

/// The pre-order listing of a forest, each node with its depth.
pub open spec fn flatten_spec(nodes: Seq<SideTree>, depth: nat) -> Seq<
    (Seq<char>, Option<Seq<char>>, nat),
>
    decreases nodes,
{
    if nodes.len() == 0 {
        Seq::empty()
    } else {
        let last = nodes.last();
        flatten_spec(nodes.drop_last(), depth) + seq![(last.name, last.path, depth)]
            + flatten_spec(last.children, depth + 1)
    }
}

/// The view of a flat node.
pub open spec fn flat_view(f: FlatNode) -> (Seq<char>, Option<Seq<char>>, nat) {
    (f.name@, opt_view(f.path), f.depth as nat)
}

/// The views of a sequence of flat nodes.
pub open spec fn flat_views(v: Seq<FlatNode>) -> Seq<(Seq<char>, Option<Seq<char>>, nat)> {
    v.map_values(|f: FlatNode| flat_view(f))
}

/// A copy of an optional string.
fn clone_opt(o: &Option<String>) -> (r: Option<String>)
    ensures
        opt_view(r) == opt_view(*o),
{
    match o {
        Some(s) => Some(s.clone()),
        None => None,
    }
}

/// The sidebar listed in pre-order, each node with its depth (roots at depth 0).
pub fn flatten_sidebar(nodes: &Vec<SidebarNode>) -> (r: Vec<FlatNode>)
    requires
        depth_bound(trees(nodes@), 0),
    ensures
        flat_views(r@) == flatten_spec(trees(nodes@), 0),
{
    let mut flat: Vec<FlatNode> = Vec::new();
    flatten_recursive(nodes, 0, &mut flat);
    assert(flat_views(flat@) =~= flatten_spec(trees(nodes@), 0));
    flat
}

/// The depth of a forest stays within `usize` when listed from `depth`.
pub open spec fn depth_bound(nodes: Seq<SideTree>, depth: nat) -> bool
    decreases nodes,
{
    &&& depth < usize::MAX
    &&& forall|i: int| 0 <= i < nodes.len() ==> depth_bound(#[trigger] nodes[i].children, depth + 1)
}

/// Whether the depths of a forest listed from `depth` fit in `usize` (see
/// `depth_bound`).
pub fn depth_fits(nodes: &Vec<SidebarNode>, depth: usize) -> (b: bool)
    ensures
        b == depth_bound(trees(nodes@), depth as nat),
    decreases nodes@,
{
    if depth == usize::MAX {
        return false;
    }
    let mut i: usize = 0;
    while i < nodes.len()
        invariant
            i <= nodes@.len(),
            depth < usize::MAX,
            forall|j: int| 0 <= j < i ==> depth_bound(#[trigger] trees(nodes@)[j].children, depth as nat + 1),
        decreases nodes@.len() - i,
    {
        let node = &nodes[i];
        assert(trees(nodes@)[i as int].children =~= trees(node.children@));
        if !depth_fits(&node.children, depth + 1) {
            return false;
        }
        i += 1;
    }
    true
}

/// Appends the pre-order listing of `nodes`, starting at `depth`.
fn flatten_recursive(nodes: &Vec<SidebarNode>, depth: usize, out: &mut Vec<FlatNode>)
    requires
        depth_bound(trees(nodes@), depth as nat),
    ensures
        flat_views(final(out)@) == flat_views(old(out)@) + flatten_spec(trees(nodes@), depth as nat),
    decreases nodes@,
{
    let ghost start = flat_views(out@);
    let mut i: usize = 0;
    while i < nodes.len()
        invariant
            i <= nodes@.len(),
            depth_bound(trees(nodes@), depth as nat),
            flat_views(out@) == start + flatten_spec(trees(nodes@).take(i as int), depth as nat),
        decreases nodes@.len() - i,
    {
        let node = &nodes[i];
        let ghost prev = flat_views(out@);
        let entry = FlatNode { name: node.name.clone(), path: clone_opt(&node.path), depth };
        out.push(entry);
        assert(flat_views(out@) =~= prev + seq![(node.name@, opt_view(node.path), depth as nat)]);
        let ghost mid = flat_views(out@);
        assert(trees(nodes@)[i as int].children =~= trees(node.children@));
        assert(depth_bound(trees(node.children@), depth as nat + 1));
        flatten_recursive(&node.children, depth + 1, out);
        proof {
            let t = trees(nodes@).take(i + 1);
            assert(t.drop_last() =~= trees(nodes@).take(i as int));
            assert(t.last() == node.tree());
            assert(flatten_spec(t, depth as nat) == flatten_spec(trees(nodes@).take(i as int), depth as nat)
                + seq![(node.name@, opt_view(node.path), depth as nat)] + flatten_spec(
                trees(node.children@),
                depth as nat + 1,
            ));
            assert(flat_views(out@) =~= start + flatten_spec(t, depth as nat));
        }
        i += 1;
    }
    assert(trees(nodes@).take(nodes@.len() as int) =~= trees(nodes@));
}

/// The first file node of a forest in pre-order.
pub open spec fn first_file(nodes: Seq<SideTree>) -> Option<SideTree>
    decreases nodes,
{
    if nodes.len() == 0 {
        None
    } else {
        match first_file(nodes.drop_last()) {
            Some(f) => Some(f),
            None => {
                let last = nodes.last();
                if last.path is Some {
                    Some(last)
                } else {
                    first_file(last.children)
                }
            },
        }
    }
}

/// The number of nodes of a forest, at every level.
pub open spec fn forest_size(nodes: Seq<SideTree>) -> nat
    decreases nodes,
{
    if nodes.len() == 0 {
        0
    } else {
        let last = nodes.last();
        forest_size(nodes.drop_last()) + 1 + forest_size(last.children)
    }
}

/// The flattened sidebar lists every node of the forest once: its length is the number
/// of nodes, and the roots stand at the starting depth.
pub proof fn lemma_flatten_lists_every_node(nodes: Seq<SideTree>, depth: nat)
    ensures
        flatten_spec(nodes, depth).len() == forest_size(nodes),
        nodes.len() > 0 ==> flatten_spec(nodes, depth)[0].2 == depth,
    decreases nodes,
{
    if nodes.len() > 0 {
        let last = nodes.last();
        assert(decreases_to!(nodes => last));
        lemma_flatten_lists_every_node(nodes.drop_last(), depth);
        lemma_flatten_lists_every_node(last.children, depth + 1);
        if nodes.len() > 1 {
            assert(flatten_spec(nodes, depth)[0] == flatten_spec(nodes.drop_last(), depth)[0]);
        } else {
            assert(nodes.drop_last().len() == 0);
            assert(flatten_spec(nodes, depth)[0] == (last.name, last.path, depth));
        }
    }
}

/// The file that `first_file` picks is the first entry with a path in the pre-order
/// listing of `flatten_spec`, with its name and path; when it picks none, no entry of
/// the listing has a path.
pub proof fn lemma_first_file_is_first_listed(nodes: Seq<SideTree>, depth: nat)
    ensures
        match first_file(nodes) {
            None => forall|k: int|
                0 <= k < flatten_spec(nodes, depth).len() ==> (#[trigger] flatten_spec(nodes, depth)[k]).1 is None,
            Some(f) => f.path is Some && exists|k: int|
                0 <= k < flatten_spec(nodes, depth).len() && (#[trigger] flatten_spec(nodes, depth)[k]).0 == f.name
                    && flatten_spec(nodes, depth)[k].1 == f.path && forall|m: int|
                    0 <= m < k ==> (#[trigger] flatten_spec(nodes, depth)[m]).1 is None,
        },
    decreases nodes,
{
    if nodes.len() > 0 {
        let prev = nodes.drop_last();
        let last = nodes.last();
        assert(decreases_to!(nodes => last));
        lemma_first_file_is_first_listed(prev, depth);
        lemma_first_file_is_first_listed(last.children, depth + 1);
        let a = flatten_spec(prev, depth);
        let e = seq![(last.name, last.path, depth)];
        let c = flatten_spec(last.children, depth + 1);
        let whole = flatten_spec(nodes, depth);
        assert(whole == a + e + c);
        match first_file(prev) {
            Some(f) => {
                let k = choose|k: int|
                    0 <= k < a.len() && (#[trigger] a[k]).0 == f.name && a[k].1 == f.path && forall|m: int|
                        0 <= m < k ==> (#[trigger] a[m]).1 is None;
                assert(whole[k] == a[k]);
                assert forall|m: int| 0 <= m < k implies (#[trigger] whole[m]).1 is None by {
                    assert(whole[m] == a[m]);
                }
            },
            None => {
                if last.path is Some {
                    let k = a.len() as int;
                    assert(whole[k] == (last.name, last.path, depth));
                    assert forall|m: int| 0 <= m < k implies (#[trigger] whole[m]).1 is None by {
                        assert(whole[m] == a[m]);
                    }
                } else {
                    match first_file(last.children) {
                        Some(f) => {
                            let k2 = choose|k: int|
                                0 <= k < c.len() && (#[trigger] c[k]).0 == f.name && c[k].1 == f.path && forall|m: int|
                                    0 <= m < k ==> (#[trigger] c[m]).1 is None;
                            let k = a.len() + 1 + k2;
                            assert(whole[k] == c[k2]);
                            assert forall|m: int| 0 <= m < k implies (#[trigger] whole[m]).1 is None by {
                                if m < a.len() {
                                    assert(whole[m] == a[m]);
                                } else if m == a.len() {
                                    assert(whole[m] == (last.name, last.path, depth));
                                } else {
                                    assert(whole[m] == c[m - a.len() - 1]);
                                }
                            }
                        },
                        None => {
                            assert forall|k: int| 0 <= k < whole.len() implies (#[trigger] whole[k]).1 is None by {
                                if k < a.len() {
                                    assert(whole[k] == a[k]);
                                } else if k == a.len() {
                                    assert(whole[k] == (last.name, last.path, depth));
                                } else {
                                    assert(whole[k] == c[k - a.len() - 1]);
                                }
                            }
                        },
                    }
                }
            },
        }
    }
}

/// The first file node of the tree in pre-order, if any.
pub fn find_first_file(nodes: &Vec<SidebarNode>) -> (r: Option<&SidebarNode>)
    ensures
        r is Some <==> first_file(trees(nodes@)) is Some,
        r matches Some(n) ==> first_file(trees(nodes@)) == Some(n.tree()),
    decreases nodes@,
{
    let mut i: usize = 0;
    while i < nodes.len()
        invariant
            i <= nodes@.len(),
            first_file(trees(nodes@).take(i as int)) is None,
        decreases nodes@.len() - i,
    {
        let node = &nodes[i];
        proof {
            let t = trees(nodes@).take(i + 1);
            assert(t.drop_last() =~= trees(nodes@).take(i as int));
            assert(t.last() == node.tree());
            assert(node.tree().children =~= trees(node.children@));
        }
        if node.path.is_some() {
            proof {
                lemma_first_file_prefix(trees(nodes@), i + 1);
            }
            return Some(node);
        }
        if node.children.len() > 0 {
            let found = find_first_file(&node.children);
            if found.is_some() {
                proof {
                    lemma_first_file_prefix(trees(nodes@), i + 1);
                }
                return found;
            }
        }
        i += 1;
    }
    assert(trees(nodes@).take(nodes@.len() as int) =~= trees(nodes@));
    None
}

/// A file found within a prefix is the first file of the whole forest.
proof fn lemma_first_file_prefix(nodes: Seq<SideTree>, n: int)
    requires
        0 <= n <= nodes.len(),
        first_file(nodes.take(n)) is Some,
    ensures
        first_file(nodes) == first_file(nodes.take(n)),
    decreases nodes.len(),
{
    if n < nodes.len() {
        assert(nodes.drop_last().take(n) =~= nodes.take(n));
        lemma_first_file_prefix(nodes.drop_last(), n);
    } else {
        assert(nodes.take(n) =~= nodes);
    }
}

} // verus!
