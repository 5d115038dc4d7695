//! The link graph: the neighbourhood of one note, and the graph of the whole vault.
//!
//! A note links to another when one of its outgoing link titles resolves, through the
//! title index, to the other's path.
use vstd::prelude::*;
use crate::config::{clone_strings, views};
use crate::domain::{GraphData, GraphEdge, GraphNode, Note};
use crate::keyed::{StrKeyMap, contains_string, lemma_entries_map_at};

verus! {

/// Seconds since the Unix epoch of a modification time given in nanoseconds.
pub open spec fn mtime_secs(nanos: u128) -> i64 {
    (nanos / 1_000_000_000) as i64
}

/// A note's modification time in whole seconds since the Unix epoch.
pub fn note_mtime_secs(note: &Note) -> (s: i64)
    ensures
        s == mtime_secs(note.mtime),
{
    let secs: u128 = note.mtime / 1_000_000_000;
    #[verifier::truncate]
    (secs as i64)
}

/// `t` is one of the link titles of note `n`.
pub open spec fn is_link(n: Note, t: Seq<char>) -> bool {
    views(n.outgoing_links@).contains(t)
}

/// Note `p` links, through the title index `li`, to path `q`.
pub open spec fn step_to(
    notes: Map<Seq<char>, Note>,
    li: Map<Seq<char>, String>,
    p: Seq<char>,
    q: Seq<char>,
) -> bool {
    notes.contains_key(p) && exists|t: Seq<char>|
        is_link(notes[p], t) && li.contains_key(t) && #[trigger] li[t]@ == q
}

/// The paths that some note of `s` links to.
pub open spec fn succ(notes: Map<Seq<char>, Note>, li: Map<Seq<char>, String>, s: Set<Seq<char>>) -> Set<
    Seq<char>,
> {
    Set::new(|q: Seq<char>| exists|p: Seq<char>| s.contains(p) && #[trigger] step_to(notes, li, p, q))
}

/// The paths within `k` link steps of `c`.
pub open spec fn reach(notes: Map<Seq<char>, Note>, li: Map<Seq<char>, String>, c: Seq<char>, k: nat) -> Set<
    Seq<char>,
>
    decreases k,
{
    if k == 0 {
        set![c]
    } else {
        let r = reach(notes, li, c, (k - 1) as nat);
        r.union(succ(notes, li, r))
    }
}

/// The paths whose links are followed when the neighbourhood of `c` is explored to
/// `depth` steps: those within `depth - 1` steps.
pub open spec fn expanded(notes: Map<Seq<char>, Note>, li: Map<Seq<char>, String>, c: Seq<char>, depth: nat) -> Set<
    Seq<char>,
> {
    if depth == 0 {
        Set::empty()
    } else {
        reach(notes, li, c, (depth - 1) as nat)
    }
}

/// Note `x` is outside `seen` and links to the title `title`.
pub open spec fn is_backlinker(
    notes: Map<Seq<char>, Note>,
    title: Seq<char>,
    seen: Set<Seq<char>>,
    x: Seq<char>,
) -> bool {
    notes.contains_key(x) && !seen.contains(x) && is_link(notes[x], title)
}

/// The ids of a sequence of nodes.
pub open spec fn node_ids(nodes: Seq<GraphNode>) -> Seq<Seq<char>> {
    nodes.map_values(|n: GraphNode| n.id@)
}

/// Tags and time of node `n` are those of the note at its path (none and 0 when no
/// note is there), and its hover text is its label.
pub open spec fn node_meta_ok(notes: Map<Seq<char>, Note>, n: GraphNode) -> bool {
    &&& views(n.tags@) == (if notes.contains_key(n.id@) {
        views(notes[n.id@].tags@)
    } else {
        Seq::<Seq<char>>::empty()
    })
    &&& n.mtime == (if notes.contains_key(n.id@) {
        mtime_secs(notes[n.id@].mtime)
    } else {
        0
    })
    &&& n.title@ == n.label@
}

/// A node found by following links: the centre carries the requested title, any other
/// node a link title that resolves to its path.
pub open spec fn bfs_node_ok(
    notes: Map<Seq<char>, Note>,
    li: Map<Seq<char>, String>,
    title: Seq<char>,
    c: Seq<char>,
    n: GraphNode,
) -> bool {
    &&& node_meta_ok(notes, n)
    &&& if n.id@ == c {
        n.label@ == title
    } else {
        exists|q: Seq<char>, t: Seq<char>|
            notes.contains_key(q) && is_link(notes[q], t) && li.contains_key(t) && li[t]@ == n.id@
                && #[trigger] n.label@ == t
    }
}

/// A node of the neighbourhood graph: found by following links, or a note outside the
/// explored paths that links to the centre, labelled with its own title.
pub open spec fn local_node_ok(
    notes: Map<Seq<char>, Note>,
    li: Map<Seq<char>, String>,
    title: Seq<char>,
    c: Seq<char>,
    seen: Set<Seq<char>>,
    n: GraphNode,
) -> bool {
    if seen.contains(n.id@) {
        bfs_node_ok(notes, li, title, c, n)
    } else {
        is_backlinker(notes, title, seen, n.id@) && node_meta_ok(notes, n) && n.label@
            == notes[n.id@].title@
    }
}

/// An edge followed from an explored note: its source is in `x` and one of its link
/// titles resolves to the target.
pub open spec fn link_edge_ok(
    notes: Map<Seq<char>, Note>,
    li: Map<Seq<char>, String>,
    x: Set<Seq<char>>,
    e: GraphEdge,
) -> bool {
    &&& e.weight == 1
    &&& x.contains(e.from@)
    &&& step_to(notes, li, e.from@, e.to@)
}

/// Every link of every note of `x` that resolves has an edge.
pub open spec fn links_covered(
    notes: Map<Seq<char>, Note>,
    li: Map<Seq<char>, String>,
    x: Set<Seq<char>>,
    edges: Seq<GraphEdge>,
) -> bool {
    forall|p: Seq<char>, t: Seq<char>|
        #![trigger x.contains(p), li[t]]
        x.contains(p) && notes.contains_key(p) && is_link(notes[p], t) && li.contains_key(t) ==> has_edge(
            edges,
            p,
            li[t]@,
        )
}

/// Some edge goes from `from` to `to`.
pub open spec fn has_edge(edges: Seq<GraphEdge>, from: Seq<char>, to: Seq<char>) -> bool {
    exists|j: int| 0 <= j < edges.len() && edges[j].from@ == from && #[trigger] edges[j].to@ == to
}

proof fn lemma_has_edge_prefix(a: Seq<GraphEdge>, b: Seq<GraphEdge>, from: Seq<char>, to: Seq<char>)
    requires
        a.len() <= b.len(),
        b.take(a.len() as int) == a,
        has_edge(a, from, to),
    ensures
        has_edge(b, from, to),
{
    let j = choose|j: int| 0 <= j < a.len() && a[j].from@ == from && #[trigger] a[j].to@ == to;
    assert(b.take(a.len() as int)[j] == b[j]);
}

/// The neighbourhood of `title` is empty: the title has no path, or no note is there.
pub open spec fn graph_found(notes: Map<Seq<char>, Note>, li: Map<Seq<char>, String>, title: Seq<char>) -> bool {
    li.contains_key(title) && notes.contains_key(li[title]@)
}

proof fn lemma_reach_fixpoint(
    notes: Map<Seq<char>, Note>,
    li: Map<Seq<char>, String>,
    c: Seq<char>,
    k: nat,
    m: nat,
)
    requires
        reach(notes, li, c, k + 1) == reach(notes, li, c, k),
        k <= m,
    ensures
        reach(notes, li, c, m) == reach(notes, li, c, k),
    decreases m - k,
{
    if m > k {
        lemma_reach_fixpoint(notes, li, c, k, (m - 1) as nat);
        assert(reach(notes, li, c, m) == reach(notes, li, c, (m - 1) as nat).union(
            succ(notes, li, reach(notes, li, c, (m - 1) as nat)),
        ));
    }
}

/// Whether one of the first `n` nodes has id `id`.
fn has_node(nodes: &Vec<GraphNode>, n: usize, id: &String) -> (b: bool)
    requires
        n <= nodes@.len(),
    ensures
        b == node_ids(nodes@).take(n as int).contains(id@),
{
    let ghost ids = node_ids(nodes@).take(n as int);
    let mut i: usize = 0;
    while i < n
        invariant
            i <= n <= nodes@.len(),
            ids == node_ids(nodes@).take(n as int),
            forall|j: int| 0 <= j < i ==> ids[j] != id@,
        decreases n - i,
    {
        if nodes[i].id == *id {
            assert(ids[i as int] == id@);
            return true;
        }
        i += 1;
    }
    false
}

/// Whether the link title at position `j` occurs earlier in the list.
fn appears_before(links: &Vec<String>, j: usize) -> (b: bool)
    requires
        j < links@.len(),
    ensures
        b == views(links@).take(j as int).contains(links@[j as int]@),
{
    let ghost pre = views(links@).take(j as int);
    let mut i: usize = 0;
    while i < j
        invariant
            i <= j < links@.len(),
            pre == views(links@).take(j as int),
            forall|m: int| 0 <= m < i ==> pre[m] != links@[j as int]@,
        decreases j - i,
    {
        if links[i] == links[j] {
            assert(pre[i as int] == links@[j as int]@);
            return true;
        }
        i += 1;
    }
    false
}

/// A node for path `id` with label `label`, carrying the tags and time of the note at
/// that path.
fn make_node(notes: &StrKeyMap<Note>, id: &String, label: &String) -> (n: GraphNode)
    ensures
        n.id == *id,
        n.label == *label,
        node_meta_ok(notes@, n),
{
    match notes.get(id.as_str()) {
        Some(note) => GraphNode {
            id: id.clone(),
            label: label.clone(),
            title: label.clone(),
            tags: clone_strings(&note.tags),
            mtime: note_mtime_secs(note),
        },
        None => {
            let n = GraphNode {
                id: id.clone(),
                label: label.clone(),
                title: label.clone(),
                tags: Vec::new(),
                mtime: 0,
            };
            assert(views(n.tags@) =~= Seq::<Seq<char>>::empty());
            n
        },
    }
}

/// Follows the links of note `note` at path `p`: each distinct link title that resolves
/// adds an edge, and a node for its target when there is none yet.
fn expand_one(
    notes: &StrKeyMap<Note>,
    li: &StrKeyMap<String>,
    p: &String,
    note: &Note,
    nodes: &mut Vec<GraphNode>,
    edges: &mut Vec<GraphEdge>,
    Ghost(title): Ghost<Seq<char>>,
    Ghost(c): Ghost<Seq<char>>,
)
    requires
        notes@.contains_key(p@),
        notes@[p@] == *note,
        node_ids(old(nodes)@).no_duplicates(),
        node_ids(old(nodes)@).contains(c),
        forall|i: int| 0 <= i < old(nodes)@.len() ==> bfs_node_ok(notes@, li@, title, c, #[trigger] old(nodes)@[i]),
    ensures
        final(nodes)@.len() >= old(nodes)@.len(),
        final(nodes)@.take(old(nodes)@.len() as int) == old(nodes)@,
        node_ids(final(nodes)@).no_duplicates(),
        forall|x: Seq<char>|
            #![trigger node_ids(final(nodes)@).contains(x)]
            node_ids(final(nodes)@).contains(x) <==> (node_ids(old(nodes)@).contains(x) || step_to(notes@, li@, p@, x)),
        forall|i: int| 0 <= i < final(nodes)@.len() ==> bfs_node_ok(notes@, li@, title, c, #[trigger] final(nodes)@[i]),
        final(edges)@.len() >= old(edges)@.len(),
        final(edges)@.take(old(edges)@.len() as int) == old(edges)@,
        forall|j: int|
            old(edges)@.len() <= j < final(edges)@.len() ==> (#[trigger] final(edges)@[j]).from@ == p@
                && final(edges)@[j].weight == 1 && step_to(notes@, li@, p@, final(edges)@[j].to@),
        forall|t: Seq<char>|
            #![trigger li@[t]]
            is_link(*note, t) && li@.contains_key(t) ==> has_edge(final(edges)@, p@, li@[t]@),
{
    let ghost nodes0 = nodes@;
    let ghost edges0 = edges@;
    let links = &note.outgoing_links;
    let mut j: usize = 0;
    while j < links.len()
        invariant
            j <= links@.len(),
            links == &note.outgoing_links,
            notes@.contains_key(p@),
            notes@[p@] == *note,
            nodes@.len() >= nodes0.len(),
            nodes@.take(nodes0.len() as int) == nodes0,
            node_ids(nodes0).contains(c),
            node_ids(nodes@).no_duplicates(),
            forall|x: Seq<char>|
                #![trigger node_ids(nodes@).contains(x)]
                node_ids(nodes@).contains(x) <==> (node_ids(nodes0).contains(x) || exists|m: int|
                    0 <= m < j && li@.contains_key(links@[m]@) && #[trigger] li@[links@[m]@]@ == x),
            forall|i: int| 0 <= i < nodes@.len() ==> bfs_node_ok(notes@, li@, title, c, #[trigger] nodes@[i]),
            edges@.len() >= edges0.len(),
            edges@.take(edges0.len() as int) == edges0,
            forall|e: int|
                edges0.len() <= e < edges@.len() ==> (#[trigger] edges@[e]).from@ == p@ && edges@[e].weight == 1
                    && step_to(notes@, li@, p@, edges@[e].to@),
            forall|m: int|
                0 <= m < j && li@.contains_key(#[trigger] links@[m]@) ==> has_edge(edges@, p@, li@[links@[m]@]@),
        decreases links@.len() - j,
    {
        let t = &links[j];
        let ghost tv = links@[j as int]@;
        let ghost nodes_it = nodes@;
        let ghost edges_it = edges@;
        let seen_before = appears_before(links, j);
        if seen_before {
            proof {
                let m0 = choose|m: int| 0 <= m < j && views(links@)[m] == tv;
                assert(links@[m0]@ == tv);
                if li@.contains_key(tv) {
                    assert(node_ids(nodes_it).contains(li@[links@[m0]@]@));
                    assert(has_edge(edges@, p@, li@[links@[m0]@]@));
                }
            }
        } else {
            match li.get(t.as_str()) {
                Some(lp) => {
                    proof {
                        assert(views(links@)[j as int] == tv);
                        assert(is_link(*note, tv));
                        assert(step_to(notes@, li@, p@, lp@));
                    }
                    let ghost before = nodes@;
                    let present = has_node(nodes, nodes.len(), lp);
                    if !present {
                        let n = make_node(notes, lp, t);
                        nodes.push(n);
                        proof {
                            assert(node_ids(before).take(before.len() as int) =~= node_ids(before));
                            assert(node_ids(nodes@) =~= node_ids(before).push(lp@));
                            assert(nodes@.take(nodes0.len() as int) =~= before.take(nodes0.len() as int));
                            assert(lp@ != c);
                            assert(bfs_node_ok(notes@, li@, title, c, n));
                        }
                    } else {
                        assert(node_ids(before).take(before.len() as int) =~= node_ids(before));
                    }
                    let ghost ebefore = edges@;
                    edges.push(GraphEdge { from: p.clone(), to: lp.clone(), weight: 1 });
                    proof {
                        assert(edges@.take(edges0.len() as int) =~= ebefore.take(edges0.len() as int));
                        assert(edges@[ebefore.len() as int].to@ == li@[tv]@);
                        assert(has_edge(edges@, p@, li@[tv]@));
                        assert forall|x: Seq<char>| node_ids(nodes@).contains(x) <==> (node_ids(nodes_it).contains(x) || (li@.contains_key(tv)
                            && li@[tv]@ == x)) by {
                            if !present {
                                assert(node_ids(nodes@) =~= node_ids(nodes_it).push(lp@));
                                vstd::seq_lib::lemma_seq_contains_after_push(node_ids(nodes_it), lp@, x);
                            }
                        }
                    }
                },
                None => {
                    assert(nodes@ == nodes_it);
                },
            }
        }
        proof {
            assert(edges@.len() >= edges_it.len());
            assert(edges@.take(edges_it.len() as int) =~= edges_it);
            assert(li@.contains_key(tv) ==> has_edge(edges@, p@, li@[tv]@));
            assert forall|x: Seq<char>| #![trigger node_ids(nodes@).contains(x)]
                node_ids(nodes@).contains(x) <==> (node_ids(nodes0).contains(x) || exists|m: int|
                    0 <= m < j + 1 && li@.contains_key(links@[m]@) && #[trigger] li@[links@[m]@]@ == x) by {
                assert(node_ids(nodes@).contains(x) <==> (node_ids(nodes_it).contains(x) || (li@.contains_key(tv)
                    && li@[tv]@ == x)));
                if li@.contains_key(tv) && li@[tv]@ == x {
                    assert(li@[links@[j as int]@]@ == x);
                }
            }
            assert forall|m: int|
                0 <= m < j + 1 && li@.contains_key(#[trigger] links@[m]@) implies has_edge(edges@, p@, li@[links@[m]@]@) by {
                if m < j {
                    lemma_has_edge_prefix(edges_it, edges@, p@, li@[links@[m]@]@);
                }
            }
        }
        j += 1;
    }
    proof {
        assert forall|x: Seq<char>| #![trigger node_ids(nodes@).contains(x)]
            node_ids(nodes@).contains(x) <==> (node_ids(nodes0).contains(x) || step_to(notes@, li@, p@, x)) by {
            if step_to(notes@, li@, p@, x) {
                let t = choose|t: Seq<char>| is_link(notes@[p@], t) && li@.contains_key(t) && #[trigger] li@[t]@ == x;
                let m = choose|m: int| 0 <= m < views(links@).len() && views(links@)[m] == t;
                assert(links@[m]@ == t);
            }
            if exists|m: int| 0 <= m < j && li@.contains_key(links@[m]@) && #[trigger] li@[links@[m]@]@ == x {
                let m = choose|m: int| 0 <= m < j && li@.contains_key(links@[m]@) && #[trigger] li@[links@[m]@]@ == x;
                assert(views(links@)[m] == links@[m]@);
                assert(is_link(*note, links@[m]@));
            }
        }
        assert forall|t: Seq<char>| #![trigger li@[t]]
            is_link(*note, t) && li@.contains_key(t) implies has_edge(edges@, p@, li@[t]@) by {
            let m = choose|m: int| 0 <= m < views(links@).len() && views(links@)[m] == t;
            assert(links@[m]@ == t);
        }
    }
}

/// One more step of exploration from the level `ids[lo..hi]` reaches exactly the
/// targets of that level beyond what was already reached.
proof fn lemma_level_step(
    notes: Map<Seq<char>, Note>,
    li: Map<Seq<char>, String>,
    c: Seq<char>,
    d: nat,
    ids: Seq<Seq<char>>,
    lo: int,
    hi: int,
)
    requires
        0 <= lo <= hi <= ids.len(),
        forall|x: Seq<char>| #![trigger ids.take(hi).contains(x)] ids.take(hi).contains(x) <==> reach(notes, li, c, d).contains(x),
        forall|x: Seq<char>| #![trigger ids.take(lo).contains(x)] ids.take(lo).contains(x) <==> expanded(notes, li, c, d).contains(x),
    ensures
        forall|x: Seq<char>|
            #![trigger reach(notes, li, c, d + 1).contains(x)]
            reach(notes, li, c, d + 1).contains(x) <==> (reach(notes, li, c, d).contains(x) || exists|j: int|
                lo <= j < hi && #[trigger] step_to(notes, li, ids[j], x)),
{
    let r = reach(notes, li, c, d);
    assert(reach(notes, li, c, d + 1) == r.union(succ(notes, li, r)));
    assert forall|x: Seq<char>| #![trigger reach(notes, li, c, d + 1).contains(x)]
        reach(notes, li, c, d + 1).contains(x) <==> (r.contains(x) || exists|j: int|
            lo <= j < hi && #[trigger] step_to(notes, li, ids[j], x)) by {
        if succ(notes, li, r).contains(x) && !r.contains(x) {
            let p = choose|p: Seq<char>| r.contains(p) && #[trigger] step_to(notes, li, p, x);
            assert(ids.take(hi).contains(p));
            let j = choose|j: int| 0 <= j < hi && ids.take(hi)[j] == p;
            assert(ids[j] == p);
            if j < lo {
                assert(ids.take(lo)[j] == p);
                assert(ids.take(lo).contains(p));
                assert(d > 0);
                let r0 = reach(notes, li, c, (d - 1) as nat);
                assert(r0.contains(p));
                assert(succ(notes, li, r0).contains(x));
                assert(r == r0.union(succ(notes, li, r0)));
            }
        }
        if exists|j: int| lo <= j < hi && #[trigger] step_to(notes, li, ids[j], x) {
            let j = choose|j: int| lo <= j < hi && #[trigger] step_to(notes, li, ids[j], x);
            assert(ids.take(hi)[j] == ids[j]);
            assert(ids.take(hi).contains(ids[j]));
            assert(succ(notes, li, r).contains(x));
        }
    }
}

/// The neighbourhood graph of the note titled `current_note_title`.
///
/// The centre is the note that the title index gives for the title; the graph is empty
/// when the title has no path or no note is there. Links are followed breadth-first up
/// to `depth` steps: the nodes are the paths within `depth` steps, and each link title
/// of a note within `depth - 1` steps that resolves gives an edge (weight 1). Every
/// other note that links to the title is added too, with an edge to the centre.
pub fn generate_graph(
    current_note_title: &str,
    notes: &StrKeyMap<Note>,
    link_index: &StrKeyMap<String>,
    depth: usize,
) -> (g: GraphData)
    ensures
        !graph_found(notes@, link_index@, current_note_title@) ==> g.nodes@.len() == 0 && g.edges@.len() == 0,
        graph_found(notes@, link_index@, current_note_title@) ==> ({
            let li = link_index@;
            let title = current_note_title@;
            let c = li[title]@;
            let seen = reach(notes@, li, c, depth as nat);
            let x = expanded(notes@, li, c, depth as nat);
            &&& g.nodes@.len() >= 1
            &&& g.nodes@[0].id@ == c
            &&& g.nodes@[0].label@ == title
            &&& node_ids(g.nodes@).no_duplicates()
            &&& forall|p: Seq<char>|
                #![trigger node_ids(g.nodes@).contains(p)]
                node_ids(g.nodes@).contains(p) <==> (seen.contains(p) || is_backlinker(notes@, title, seen, p))
            &&& forall|i: int|
                0 <= i < g.nodes@.len() ==> local_node_ok(notes@, li, title, c, seen, #[trigger] g.nodes@[i])
            &&& forall|i: int|
                0 <= i < g.edges@.len() ==> link_edge_ok(notes@, li, x, #[trigger] g.edges@[i]) || (
                g.edges@[i].weight == 1 && is_backlinker(notes@, title, seen, g.edges@[i].from@)
                    && g.edges@[i].to@ == c)
            &&& links_covered(notes@, li, x, g.edges@)
            &&& forall|p: Seq<char>|
                #![trigger is_backlinker(notes@, title, seen, p)]
                is_backlinker(notes@, title, seen, p) ==> has_edge(g.edges@, p, c)
        }),
{
    let center = match link_index.get(current_note_title) {
        Some(path) => path,
        None => {
            return GraphData { nodes: Vec::new(), edges: Vec::new() };
        },
    };
    let center_note = match notes.get(center.as_str()) {
        Some(note) => note,
        None => {
            return GraphData { nodes: Vec::new(), edges: Vec::new() };
        },
    };
    let ghost li = link_index@;
    let ghost title = current_note_title@;
    let ghost c = center@;
    let title_string = current_note_title.to_owned();
    let mut nodes: Vec<GraphNode> = Vec::new();
    nodes.push(
        GraphNode {
            id: center.clone(),
            label: title_string.clone(),
            title: title_string.clone(),
            tags: clone_strings(&center_note.tags),
            mtime: note_mtime_secs(center_note),
        },
    );
    let ghost n0 = nodes@[0];
    let mut edges: Vec<GraphEdge> = Vec::new();
    let mut lo: usize = 0;
    let mut hi: usize = 1;
    let mut d: usize = 0;
    proof {
        assert(node_ids(nodes@) =~= seq![c]);
        assert forall|x: Seq<char>| #![trigger node_ids(nodes@).contains(x)]
            node_ids(nodes@).contains(x) <==> reach(notes@, li, c, 0).contains(x) by {
            if node_ids(nodes@).contains(x) {
                let j = choose|j: int| 0 <= j < 1 && node_ids(nodes@)[j] == x;
            }
            if x == c {
                assert(node_ids(nodes@)[0] == c);
            }
        }
        assert(node_ids(nodes@).take(0) =~= Seq::<Seq<char>>::empty());
    }
    while d < depth && lo < hi
        invariant
            1 <= hi == nodes@.len(),
            lo <= hi,
            d <= depth,
            title_string@ == title,
            li == link_index@,
            c == center@,
            li.contains_key(title) && li[title]@ == c,
            notes@.contains_key(c),
            nodes@[0] == n0,
            n0.id@ == c,
            n0.label@ == title,
            node_ids(nodes@).no_duplicates(),
            forall|x: Seq<char>|
                #![trigger node_ids(nodes@).take(lo as int).contains(x)]
                node_ids(nodes@).take(lo as int).contains(x) <==> expanded(notes@, li, c, d as nat).contains(x),
            forall|x: Seq<char>|
                #![trigger node_ids(nodes@).contains(x)]
                node_ids(nodes@).contains(x) <==> reach(notes@, li, c, d as nat).contains(x),
            forall|i: int| 0 <= i < nodes@.len() ==> bfs_node_ok(notes@, li, title, c, #[trigger] nodes@[i]),
            forall|i: int|
                0 <= i < edges@.len() ==> link_edge_ok(notes@, li, expanded(notes@, li, c, d as nat), #[trigger] edges@[i]),
            links_covered(notes@, li, expanded(notes@, li, c, d as nat), edges@),
        decreases depth - d,
    {
        let ghost ids0 = node_ids(nodes@);
        let ghost nodes_lv = nodes@;
        let ghost ex = expanded(notes@, li, c, d as nat);
        proof {
            assert(ids0.take(hi as int) =~= ids0);
            lemma_level_step(notes@, li, c, d as nat, ids0, lo as int, hi as int);
        }
        let mut k: usize = lo;
        proof {
            assert(ex.union(Set::new(|p: Seq<char>| exists|j: int| lo <= j < lo && ids0[j] == p)) =~= ex);
        }
        while k < hi
            invariant
                lo <= k <= hi <= nodes@.len(),
                hi == nodes_lv.len(),
                nodes@.take(hi as int) == nodes_lv,
                ids0 == node_ids(nodes_lv),
                li == link_index@,
                nodes@[0] == n0,
                n0.id@ == c,
                ex == expanded(notes@, li, c, d as nat),
                forall|x: Seq<char>| #![trigger ids0.take(lo as int).contains(x)] ids0.take(lo as int).contains(x) <==> ex.contains(x),
                forall|x: Seq<char>| #![trigger ids0.contains(x)] ids0.contains(x) <==> reach(notes@, li, c, d as nat).contains(x),
                node_ids(nodes@).no_duplicates(),
                forall|x: Seq<char>|
                    #![trigger node_ids(nodes@).contains(x)]
                    node_ids(nodes@).contains(x) <==> (ids0.contains(x) || exists|j: int|
                        lo <= j < k && #[trigger] step_to(notes@, li, ids0[j], x)),
                forall|i: int| 0 <= i < nodes@.len() ==> bfs_node_ok(notes@, li, title, c, #[trigger] nodes@[i]),
                forall|i: int|
                    0 <= i < edges@.len() ==> link_edge_ok(
                        notes@,
                        li,
                        ex.union(Set::new(|p: Seq<char>| exists|j: int| lo <= j < k && ids0[j] == p)),
                        #[trigger] edges@[i],
                    ),
                links_covered(
                    notes@,
                    li,
                    ex.union(Set::new(|p: Seq<char>| exists|j: int| lo <= j < k && ids0[j] == p)),
                    edges@,
                ),
            decreases hi - k,
        {
            let ghost xk = ex.union(Set::new(|p: Seq<char>| exists|j: int| lo <= j < k && ids0[j] == p));
            let ghost xk1 = ex.union(Set::new(|p: Seq<char>| exists|j: int| lo <= j < k + 1 && ids0[j] == p));
            let ghost nodes_k = nodes@;
            let ghost edges_k = edges@;
            proof {
                assert(nodes@[k as int] == nodes_lv[k as int]);
                assert(ids0[k as int] == nodes@[k as int].id@);
                assert(node_ids(nodes@)[0] == c);
            }
            let p = nodes[k].id.clone();
            match notes.get(p.as_str()) {
                Some(note) => {
                    expand_one(notes, link_index, &p, note, &mut nodes, &mut edges, Ghost(title), Ghost(c));
                    proof {
                        assert forall|t: Seq<char>| #![trigger li[t]]
                            is_link(notes@[p@], t) && li.contains_key(t) implies has_edge(edges@, p@, li[t]@) by {
                            assert(is_link(*note, t));
                        }
                    }
                },
                None => {},
            }
            proof {
                assert(nodes@.take(hi as int) =~= nodes_k.take(hi as int));
                assert(edges@.take(edges_k.len() as int) =~= edges_k);
                assert(nodes@[0] == nodes_k[0]);
                assert forall|x: Seq<char>| #![trigger node_ids(nodes@).contains(x)]
                    node_ids(nodes@).contains(x) <==> (ids0.contains(x) || exists|j: int|
                        lo <= j < k + 1 && #[trigger] step_to(notes@, li, ids0[j], x)) by {
                    if step_to(notes@, li, ids0[k as int], x) {
                        assert(notes@.contains_key(p@));
                    }
                }
                assert(xk1.contains(p@));
                assert forall|i: int| 0 <= i < edges@.len() implies link_edge_ok(notes@, li, xk1, #[trigger] edges@[i]) by {
                    if i < edges_k.len() {
                        assert(edges@[i] == edges_k[i]);
                        assert(link_edge_ok(notes@, li, xk, edges_k[i]));
                        if !ex.contains(edges_k[i].from@) {
                            let j = choose|j: int| lo <= j < k && ids0[j] == edges_k[i].from@;
                            assert(lo <= j < k + 1 && ids0[j] == edges_k[i].from@);
                        }
                    }
                }
                assert forall|q: Seq<char>, t: Seq<char>|
                    #![trigger xk1.contains(q), li[t]]
                    xk1.contains(q) && notes@.contains_key(q) && is_link(notes@[q], t) && li.contains_key(t) implies has_edge(edges@, q, li[t]@) by {
                    if q == p@ {
                    } else {
                        if !ex.contains(q) {
                            let j = choose|j: int| lo <= j < k + 1 && ids0[j] == q;
                            assert(j != k);
                            assert(lo <= j < k && ids0[j] == q);
                        }
                        assert(xk.contains(q));
                        lemma_has_edge_prefix(edges_k, edges@, q, li[t]@);
                    }
                }
            }
            k += 1;
        }
        let ghost lo0 = lo;
        let ghost hi0 = hi;
        let ghost d0 = d as nat;
        let ghost xh = ex.union(Set::new(|p: Seq<char>| exists|j: int| lo0 <= j < hi0 && ids0[j] == p));
        proof {
            assert forall|x: Seq<char>| xh.contains(x) <==> reach(notes@, li, c, d0).contains(x) by {
                if ex.contains(x) {
                    assert(ids0.take(lo0 as int).contains(x));
                    let j = choose|j: int| 0 <= j < lo0 && ids0.take(lo0 as int)[j] == x;
                    assert(ids0[j] == x);
                    assert(ids0.contains(x));
                }
                if exists|j: int| lo0 <= j < hi0 && ids0[j] == x {
                    let j = choose|j: int| lo0 <= j < hi0 && ids0[j] == x;
                    assert(ids0.contains(x));
                }
                if reach(notes@, li, c, d0).contains(x) {
                    assert(ids0.contains(x));
                    let j = choose|j: int| 0 <= j < ids0.len() && ids0[j] == x;
                    if j < lo0 {
                        assert(ids0.take(lo0 as int)[j] == x);
                        assert(ids0.take(lo0 as int).contains(x));
                    }
                }
            }
            assert(xh =~= reach(notes@, li, c, d0));
            assert(expanded(notes@, li, c, d0 + 1) == reach(notes@, li, c, d0));
        }
        lo = hi;
        hi = nodes.len();
        d += 1;
        proof {
            assert(node_ids(nodes@).take(lo as int) =~= ids0);
            assert forall|x: Seq<char>| #![trigger node_ids(nodes@).contains(x)]
                node_ids(nodes@).contains(x) <==> reach(notes@, li, c, d as nat).contains(x) by {
                assert(reach(notes@, li, c, d0 + 1).contains(x) <==> (reach(notes@, li, c, d0).contains(x) || exists|j: int|
                    lo0 <= j < hi0 && #[trigger] step_to(notes@, li, ids0[j], x)));
            }
        }
    }
    proof {
        if d < depth {
            assert(lo == hi);
            assert(node_ids(nodes@).take(lo as int) =~= node_ids(nodes@));
            assert(node_ids(nodes@).take(lo as int)[0] == node_ids(nodes@)[0]);
            assert(node_ids(nodes@).take(lo as int).contains(node_ids(nodes@)[0]));
            assert(d > 0);
            assert forall|x: Seq<char>| reach(notes@, li, c, d as nat).contains(x) == reach(notes@, li, c, (d - 1) as nat).contains(x) by {
                assert(node_ids(nodes@).take(lo as int).contains(x) == node_ids(nodes@).contains(x));
            }
            assert(reach(notes@, li, c, d as nat) =~= reach(notes@, li, c, (d - 1) as nat));
            lemma_reach_fixpoint(notes@, li, c, (d - 1) as nat, depth as nat);
            lemma_reach_fixpoint(notes@, li, c, (d - 1) as nat, (depth - 1) as nat);
        }
    }
    let ghost seen = reach(notes@, li, c, depth as nat);
    let ghost xs = expanded(notes@, li, c, depth as nat);
    let n_bfs = nodes.len();
    let ghost bfs_nodes = nodes@;
    let ghost bfs_edges = edges@;
    proof {
        assert forall|idx: int| 0 <= idx < nodes@.len() implies local_node_ok(notes@, li, title, c, seen, #[trigger] nodes@[idx]) by {
            assert(node_ids(nodes@)[idx] == nodes@[idx].id@);
            assert(node_ids(nodes@).contains(nodes@[idx].id@));
        }
    }
    let mut i: usize = 0;
    while i < notes.len()
        invariant
            n_bfs == bfs_nodes.len(),
            nodes@.len() >= n_bfs,
            nodes@.take(n_bfs as int) == bfs_nodes,
            bfs_nodes[0] == n0,
            n_bfs >= 1,
            n0.id@ == c,
            n0.label@ == title,
            edges@.len() >= bfs_edges.len(),
            edges@.take(bfs_edges.len() as int) == bfs_edges,
            title_string@ == title,
            li == link_index@,
            c == center@,
            node_ids(nodes@).no_duplicates(),
            forall|x: Seq<char>| #![trigger node_ids(bfs_nodes).contains(x)] node_ids(bfs_nodes).contains(x) <==> seen.contains(x),
            forall|x: Seq<char>|
                #![trigger node_ids(nodes@).contains(x)]
                node_ids(nodes@).contains(x) <==> (seen.contains(x) || (key_among(notes.entries(), i as int, x)
                    && is_backlinker(notes@, title, seen, x))),
            forall|idx: int| 0 <= idx < nodes@.len() ==> local_node_ok(notes@, li, title, c, seen, #[trigger] nodes@[idx]),
            forall|e: int|
                0 <= e < edges@.len() ==> link_edge_ok(notes@, li, xs, #[trigger] edges@[e]) || (edges@[e].weight == 1
                    && is_backlinker(notes@, title, seen, edges@[e].from@) && edges@[e].to@ == c),
            links_covered(notes@, li, xs, bfs_edges),
            forall|j: int|
                0 <= j < i && is_backlinker(notes@, title, seen, #[trigger] notes.entries()[j].0@) ==> has_edge(
                    edges@,
                    notes.entries()[j].0@,
                    c,
                ),
        decreases notes.entries().len() - i,
    {
        let key = notes.key_at(i);
        let note = notes.value_at(i);
        let ghost nodes_i = nodes@;
        let ghost edges_i = edges@;
        proof {
            assert(node_ids(nodes@).take(n_bfs as int) =~= node_ids(bfs_nodes));
        }
        let in_bfs = has_node(&nodes, n_bfs, key);
        let links_title = contains_string(&note.outgoing_links, &title_string);
        proof {
            assert(views(note.outgoing_links@) =~= note.outgoing_links@.map_values(|x: String| x@));
            assert(links_title == is_link(notes@[key@], title));
        }
        if !in_bfs && links_title {
            let n = GraphNode {
                id: key.clone(),
                label: note.title.clone(),
                title: note.title.clone(),
                tags: clone_strings(&note.tags),
                mtime: note_mtime_secs(note),
            };
            nodes.push(n);
            edges.push(GraphEdge { from: key.clone(), to: center.clone(), weight: 1 });
            proof {
                assert(is_backlinker(notes@, title, seen, key@));
                assert(!node_ids(nodes_i).contains(key@)) by {
                    if node_ids(nodes_i).contains(key@) {
                        assert(key_among(notes.entries(), i as int, key@));
                        let j = choose|j: int| 0 <= j < i && #[trigger] notes.entries()[j].0@ == key@;
                        assert(notes.entries()[i as int].0@ == key@);
                    }
                }
                assert(node_ids(nodes@) =~= node_ids(nodes_i).push(key@));
                assert(nodes@.take(n_bfs as int) =~= nodes_i.take(n_bfs as int));
                assert(edges@.take(bfs_edges.len() as int) =~= edges_i.take(bfs_edges.len() as int));
                assert(edges@[edges_i.len() as int].to@ == c);
                assert(has_edge(edges@, key@, c));
                assert(local_node_ok(notes@, li, title, c, seen, n));
            }
        }
        proof {
            assert(edges@.take(edges_i.len() as int) =~= edges_i);
            assert forall|x: Seq<char>| #![trigger node_ids(nodes@).contains(x)]
                node_ids(nodes@).contains(x) <==> (seen.contains(x) || (key_among(notes.entries(), i + 1, x)
                    && is_backlinker(notes@, title, seen, x))) by {
                if node_ids(nodes@) != node_ids(nodes_i) {
                    vstd::seq_lib::lemma_seq_contains_after_push(node_ids(nodes_i), key@, x);
                }
                if key_among(notes.entries(), i + 1, x) && x != key@ {
                    let j = choose|j: int| 0 <= j < i + 1 && #[trigger] notes.entries()[j].0@ == x;
                    assert(key_among(notes.entries(), i as int, x));
                }
                if key_among(notes.entries(), i as int, x) {
                    let j = choose|j: int| 0 <= j < i && #[trigger] notes.entries()[j].0@ == x;
                    assert(key_among(notes.entries(), i + 1, x));
                }
                if x == key@ {
                    assert(key_among(notes.entries(), i + 1, x));
                }
            }
            assert forall|j: int|
                0 <= j < i + 1 && is_backlinker(notes@, title, seen, #[trigger] notes.entries()[j].0@) implies has_edge(
                    edges@,
                    notes.entries()[j].0@,
                    c,
                ) by {
                if j < i {
                    lemma_has_edge_prefix(edges_i, edges@, notes.entries()[j].0@, c);
                }
            }
        }
        i += 1;
    }
    proof {
        let n = notes.entries().len();
        assert forall|x: Seq<char>| key_among(notes.entries(), n as int, x) <==> notes@.contains_key(x) by {
            if notes@.contains_key(x) {
                let j = choose|j: int| 0 <= j < notes.entries().len() && notes.entries()[j].0@ == x;
                assert(key_among(notes.entries(), n as int, x));
            }
        }
        assert(nodes@[0] == n0);
        assert forall|q: Seq<char>, t: Seq<char>|
            #![trigger xs.contains(q), li[t]]
            xs.contains(q) && notes@.contains_key(q) && is_link(notes@[q], t) && li.contains_key(t) implies has_edge(
                edges@,
                q,
                li[t]@,
            ) by {
            lemma_has_edge_prefix(bfs_edges, edges@, q, li[t]@);
        }
        assert forall|p: Seq<char>| #![trigger is_backlinker(notes@, title, seen, p)]
            is_backlinker(notes@, title, seen, p) implies has_edge(edges@, p, c) by {
            let j = choose|j: int| 0 <= j < notes.entries().len() && notes.entries()[j].0@ == p;
        }
    }
    GraphData { nodes, edges }
}

/// Some key among the first `n` entries is `x`.
pub open spec fn key_among(entries: Seq<(String, Note)>, n: int, x: Seq<char>) -> bool {
    exists|j: int| 0 <= j < n && #[trigger] entries[j].0@ == x
}

/// A pair of paths taken by their views.
pub open spec fn pair_views(v: Seq<(String, String)>) -> Seq<(Seq<char>, Seq<char>)> {
    v.map_values(|p: (String, String)| (p.0@, p.1@))
}

/// The resolved links of the note at `from`, in order, one pair per link title whose
/// path holds a note.
pub open spec fn link_pairs(
    notes: Map<Seq<char>, Note>,
    li: Map<Seq<char>, String>,
    from: Seq<char>,
    links: Seq<Seq<char>>,
) -> Seq<(Seq<char>, Seq<char>)>
    decreases links.len(),
{
    if links.len() == 0 {
        Seq::empty()
    } else {
        let rest = link_pairs(notes, li, from, links.drop_last());
        let t = links.last();
        if li.contains_key(t) && notes.contains_key(li[t]@) {
            rest.push((from, li[t]@))
        } else {
            rest
        }
    }
}

/// All resolved links of the notes `ns`, from each note's own path, in note order.
pub open spec fn raw_edges(notes: Map<Seq<char>, Note>, li: Map<Seq<char>, String>, ns: Seq<Note>) -> Seq<
    (Seq<char>, Seq<char>),
>
    decreases ns.len(),
{
    if ns.len() == 0 {
        Seq::empty()
    } else {
        raw_edges(notes, li, ns.drop_last()) + link_pairs(
            notes,
            li,
            ns.last().path@,
            views(ns.last().outgoing_links@),
        )
    }
}

/// Path `x` is an end of some link of `raw`.
pub open spec fn connected(raw: Seq<(Seq<char>, Seq<char>)>, x: Seq<char>) -> bool {
    exists|k: int| #![trigger raw[k]] 0 <= k < raw.len() && (raw[k].0 == x || raw[k].1 == x)
}

/// The weight of a link: 2 when the reverse link exists too, 1 otherwise.
pub open spec fn link_weight(raw: Seq<(Seq<char>, Seq<char>)>, e: (Seq<char>, Seq<char>)) -> u32 {
    if raw.contains((e.1, e.0)) {
        2
    } else {
        1
    }
}

/// A node taken by its view: id, label, hover text, tags and time.
pub open spec fn node_view(n: GraphNode) -> (Seq<char>, Seq<char>, Seq<char>, Seq<Seq<char>>, i64) {
    (n.id@, n.label@, n.title@, views(n.tags@), n.mtime)
}

/// An edge taken by its view.
pub open spec fn edge_view(e: GraphEdge) -> (Seq<char>, Seq<char>, u32) {
    (e.from@, e.to@, e.weight)
}

/// The node of the whole-vault graph for note `n`: its path and title, its tags, and
/// the time of the note stored at its path.
pub open spec fn global_node_view(notes: Map<Seq<char>, Note>, n: Note) -> (
    Seq<char>,
    Seq<char>,
    Seq<char>,
    Seq<Seq<char>>,
    i64,
) {
    (
        n.path@,
        n.title@,
        n.title@,
        views(n.tags@),
        if notes.contains_key(n.path@) {
            mtime_secs(notes[n.path@].mtime)
        } else {
            0
        },
    )
}

/// Isolated notes are left out when asked for, or when there are more than 500 notes.
pub open spec fn drops_isolated(hide_isolated: bool, total: nat) -> bool {
    hide_isolated || total > 500
}

/// The nodes of the whole-vault graph, by path: each kept note in order, a later note
/// with the same path replacing an earlier one.
pub open spec fn global_nodes(
    notes: Map<Seq<char>, Note>,
    raw: Seq<(Seq<char>, Seq<char>)>,
    drop_isolated: bool,
    ns: Seq<Note>,
) -> Map<Seq<char>, (Seq<char>, Seq<char>, Seq<char>, Seq<Seq<char>>, i64)>
    decreases ns.len(),
{
    if ns.len() == 0 {
        Map::empty()
    } else {
        let m = global_nodes(notes, raw, drop_isolated, ns.drop_last());
        let n = ns.last();
        if drop_isolated && !connected(raw, n.path@) {
            m
        } else {
            m.insert(n.path@, global_node_view(notes, n))
        }
    }
}

/// The links of `raw` whose two ends are in `dom`, in order, with their weights in `all`.
pub open spec fn kept_edges(
    raw: Seq<(Seq<char>, Seq<char>)>,
    all: Seq<(Seq<char>, Seq<char>)>,
    dom: Set<Seq<char>>,
) -> Seq<(Seq<char>, Seq<char>, u32)>
    decreases raw.len(),
{
    if raw.len() == 0 {
        Seq::empty()
    } else {
        let r = kept_edges(raw.drop_last(), all, dom);
        let e = raw.last();
        if dom.contains(e.0) && dom.contains(e.1) {
            r.push((e.0, e.1, link_weight(all, e)))
        } else {
            r
        }
    }
}

/// Every kept edge joins two nodes of `dom`, is one of the links of `raw`, and weighs 2
/// exactly when the reverse link is among `all` (1 otherwise).
pub proof fn lemma_kept_edges(raw: Seq<(Seq<char>, Seq<char>)>, all: Seq<(Seq<char>, Seq<char>)>, dom: Set<Seq<char>>)
    ensures
        forall|k: int|
            0 <= k < kept_edges(raw, all, dom).len() ==> {
                let e = #[trigger] kept_edges(raw, all, dom)[k];
                &&& dom.contains(e.0)
                &&& dom.contains(e.1)
                &&& raw.contains((e.0, e.1))
                &&& (e.2 == 2 <==> all.contains((e.1, e.0)))
                &&& (e.2 == 1 <==> !all.contains((e.1, e.0)))
            },
    decreases raw.len(),
{
    if raw.len() > 0 {
        let prev = raw.drop_last();
        lemma_kept_edges(prev, all, dom);
        let r = kept_edges(prev, all, dom);
        let whole = kept_edges(raw, all, dom);
        assert forall|k: int| 0 <= k < whole.len() implies {
            let e = #[trigger] whole[k];
            &&& dom.contains(e.0)
            &&& dom.contains(e.1)
            &&& raw.contains((e.0, e.1))
            &&& (e.2 == 2 <==> all.contains((e.1, e.0)))
            &&& (e.2 == 1 <==> !all.contains((e.1, e.0)))
        } by {
            if k < r.len() {
                assert(whole[k] == r[k]);
                let e = r[k];
                let j = choose|j: int| 0 <= j < prev.len() && prev[j] == (e.0, e.1);
                assert(raw[j] == prev[j]);
            } else {
                assert(raw[raw.len() - 1] == raw.last());
            }
        }
    }
}

/// Whether some pair of `raw` touches path `x`.
fn is_connected(raw: &Vec<(String, String)>, x: &String) -> (b: bool)
    ensures
        b == connected(pair_views(raw@), x@),
{
    let ghost pv = pair_views(raw@);
    let mut k: usize = 0;
    while k < raw.len()
        invariant
            k <= raw@.len(),
            pv == pair_views(raw@),
            forall|m: int| 0 <= m < k ==> pv[m].0 != x@ && pv[m].1 != x@,
        decreases raw@.len() - k,
    {
        if raw[k].0 == *x || raw[k].1 == *x {
            assert(pv[k as int].0 == x@ || pv[k as int].1 == x@);
            return true;
        }
        k += 1;
    }
    false
}

/// Whether `raw` holds the pair `(a, b)`.
fn has_pair(raw: &Vec<(String, String)>, a: &String, b: &String) -> (r: bool)
    ensures
        r == pair_views(raw@).contains((a@, b@)),
{
    let ghost pv = pair_views(raw@);
    let mut k: usize = 0;
    while k < raw.len()
        invariant
            k <= raw@.len(),
            pv == pair_views(raw@),
            forall|m: int| 0 <= m < k ==> pv[m] != (a@, b@),
        decreases raw@.len() - k,
    {
        if raw[k].0 == *a && raw[k].1 == *b {
            assert(pv[k as int] == (a@, b@));
            return true;
        }
        k += 1;
    }
    false
}

/// Appends the resolved links of note `note` to `raw`.
fn push_link_pairs(notes: &StrKeyMap<Note>, li: &StrKeyMap<String>, note: &Note, raw: &mut Vec<(String, String)>)
    ensures
        pair_views(final(raw)@) == pair_views(old(raw)@) + link_pairs(
            notes@,
            li@,
            note.path@,
            views(note.outgoing_links@),
        ),
{
    let ghost start = pair_views(raw@);
    let ghost lv = views(note.outgoing_links@);
    let mut j: usize = 0;
    proof {
        assert(lv.take(0) =~= Seq::<Seq<char>>::empty());
        assert(start + Seq::<(Seq<char>, Seq<char>)>::empty() =~= start);
    }
    while j < note.outgoing_links.len()
        invariant
            j <= note.outgoing_links@.len(),
            lv == views(note.outgoing_links@),
            pair_views(raw@) == start + link_pairs(notes@, li@, note.path@, lv.take(j as int)),
        decreases note.outgoing_links@.len() - j,
    {
        let t = &note.outgoing_links[j];
        let ghost before = pair_views(raw@);
        proof {
            assert(lv.take(j + 1).drop_last() =~= lv.take(j as int));
            assert(lv.take(j + 1).last() == t@);
        }
        match li.get(t.as_str()) {
            Some(lp) => {
                if notes.contains_key(lp.as_str()) {
                    raw.push((note.path.clone(), lp.clone()));
                    proof {
                        assert(pair_views(raw@) =~= before.push((note.path@, lp@)));
                    }
                }
            },
            None => {},
        }
        j += 1;
    }
    proof {
        assert(lv.take(lv.len() as int) =~= lv);
    }
}

/// The graph of the whole vault.
///
/// Every resolved link of every note (one per link title whose path holds a note)
/// becomes an edge from the note's path, with weight 2 when the reverse link exists too
/// and 1 otherwise. Every note becomes a node, except that a note that is the end of no
/// link is left out when `hide_isolated` is set or there are more than 500 notes; edges
/// whose ends are not both nodes are dropped.
pub fn generate_global_graph(
    notes: &StrKeyMap<Note>,
    link_index: &StrKeyMap<String>,
    hide_isolated: bool,
) -> (g: GraphData)
    ensures
        ({
            let ns = notes.entries().map_values(|e: (String, Note)| e.1);
            let raw = raw_edges(notes@, link_index@, ns);
            let nm = global_nodes(notes@, raw, drops_isolated(hide_isolated, notes@.len()), ns);
            &&& node_ids(g.nodes@).no_duplicates()
            &&& forall|i: int|
                0 <= i < g.nodes@.len() ==> nm.contains_key((#[trigger] g.nodes@[i]).id@) && nm[g.nodes@[i].id@]
                    == node_view(g.nodes@[i])
            &&& forall|x: Seq<char>| #![trigger nm.contains_key(x)] nm.contains_key(x) ==> node_ids(g.nodes@).contains(x)
            &&& g.edges@.map_values(|e: GraphEdge| edge_view(e)) == kept_edges(raw, raw, nm.dom())
        }),
{
    let ghost ns = notes.entries().map_values(|e: (String, Note)| e.1);
    let total = notes.len();
    let mut raw: Vec<(String, String)> = Vec::new();
    let mut i: usize = 0;
    proof {
        assert(ns.take(0) =~= Seq::<Note>::empty());
    }
    while i < total
        invariant
            total == notes.entries().len(),
            i <= total,
            ns == notes.entries().map_values(|e: (String, Note)| e.1),
            pair_views(raw@) == raw_edges(notes@, link_index@, ns.take(i as int)),
        decreases total - i,
    {
        let note = notes.value_at(i);
        push_link_pairs(notes, link_index, note, &mut raw);
        proof {
            assert(ns.take(i + 1).drop_last() =~= ns.take(i as int));
            assert(ns.take(i + 1).last() == *note);
        }
        i += 1;
    }
    proof {
        assert(ns.take(total as int) =~= ns);
    }
    let ghost rawv = pair_views(raw@);
    let drop_isolated = hide_isolated || total > 500;
    let mut graph_nodes: StrKeyMap<GraphNode> = StrKeyMap::new();
    let mut i: usize = 0;
    proof {
        assert(graph_nodes@.map_values(|n: GraphNode| node_view(n)) =~= global_nodes(notes@, rawv, drop_isolated, ns.take(0)));
    }
    while i < total
        invariant
            total == notes.entries().len(),
            total == notes@.len(),
            i <= total,
            ns == notes.entries().map_values(|e: (String, Note)| e.1),
            rawv == pair_views(raw@),
            graph_nodes@.map_values(|n: GraphNode| node_view(n)) == global_nodes(notes@, rawv, drop_isolated, ns.take(i as int)),
            forall|x: Seq<char>| #![trigger graph_nodes@.contains_key(x)] graph_nodes@.contains_key(x) ==> graph_nodes@[x].id@ == x,
        decreases total - i,
    {
        let note = notes.value_at(i);
        let ghost before = graph_nodes@;
        proof {
            assert(ns.take(i + 1).drop_last() =~= ns.take(i as int));
            assert(ns.take(i + 1).last() == *note);
        }
        let is_conn = is_connected(&raw, &note.path);
        if !(drop_isolated && !is_conn) {
            let mtime: i64 = match notes.get(note.path.as_str()) {
                Some(n) => note_mtime_secs(n),
                None => 0,
            };
            let node = GraphNode {
                id: note.path.clone(),
                label: note.title.clone(),
                title: note.title.clone(),
                tags: clone_strings(&note.tags),
                mtime,
            };
            graph_nodes.insert(note.path.clone(), node);
            proof {
                assert(node_view(node) == global_node_view(notes@, *note));
                assert(graph_nodes@.map_values(|n: GraphNode| node_view(n)) =~= before.map_values(|n: GraphNode| node_view(n)).insert(
                    note.path@,
                    node_view(node),
                ));
            }
        }
        i += 1;
    }
    proof {
        assert(ns.take(total as int) =~= ns);
    }
    let ghost nm = global_nodes(notes@, rawv, drop_isolated, ns);
    let mut edges: Vec<GraphEdge> = Vec::new();
    let mut k: usize = 0;
    proof {
        assert(graph_nodes@.dom() =~= nm.dom());
        assert(rawv.take(0) =~= Seq::<(Seq<char>, Seq<char>)>::empty());
        assert(edges@.map_values(|e: GraphEdge| edge_view(e)) =~= kept_edges(rawv.take(0), rawv, nm.dom()));
    }
    while k < raw.len()
        invariant
            k <= raw@.len(),
            rawv == pair_views(raw@),
            graph_nodes@.dom() == nm.dom(),
            edges@.map_values(|e: GraphEdge| edge_view(e)) == kept_edges(rawv.take(k as int), rawv, nm.dom()),
        decreases raw@.len() - k,
    {
        let ghost before = edges@;
        proof {
            assert(rawv.take(k + 1).drop_last() =~= rawv.take(k as int));
            assert(rawv.take(k + 1).last() == (raw@[k as int].0@, raw@[k as int].1@));
        }
        let from = &raw[k].0;
        let to = &raw[k].1;
        if graph_nodes.contains_key(from.as_str()) && graph_nodes.contains_key(to.as_str()) {
            let w: u32 = if has_pair(&raw, to, from) { 2 } else { 1 };
            edges.push(GraphEdge { from: from.clone(), to: to.clone(), weight: w });
            proof {
                assert(edges@.map_values(|e: GraphEdge| edge_view(e)) =~= before.map_values(|e: GraphEdge| edge_view(e)).push(
                    (from@, to@, w),
                ));
            }
        }
        k += 1;
    }
    proof {
        assert(rawv.take(raw@.len() as int) =~= rawv);
    }
    let ghost ge = graph_nodes.entries();
    let ghost gv = graph_nodes@;
    let nodes = graph_nodes.into_values();
    proof {
        assert forall|a: int| 0 <= a < nodes@.len() implies #[trigger] nodes@[a].id@ == ge[a].0@ && gv.contains_key(
            ge[a].0@,
        ) && gv[ge[a].0@] == nodes@[a] by {
            lemma_entries_map_at(ge, a);
        }
        assert forall|a: int, b: int| 0 <= a < nodes@.len() && 0 <= b < nodes@.len() && a != b implies node_ids(
            nodes@,
        )[a] != node_ids(nodes@)[b] by {
            assert(nodes@[a].id@ == ge[a].0@);
            assert(nodes@[b].id@ == ge[b].0@);
        }
        assert forall|i: int| 0 <= i < nodes@.len() implies nm.contains_key((#[trigger] nodes@[i]).id@) && nm[nodes@[i].id@]
            == node_view(nodes@[i]) by {
            assert(gv.map_values(|n: GraphNode| node_view(n))[ge[i].0@] == node_view(gv[ge[i].0@]));
        }
        assert forall|x: Seq<char>| #![trigger nm.contains_key(x)] nm.contains_key(x) implies node_ids(nodes@).contains(x) by {
            assert(gv.contains_key(x));
            let j = choose|j: int| 0 <= j < ge.len() && ge[j].0@ == x;
            assert(node_ids(nodes@)[j] == x);
        }
    }
    GraphData { nodes, edges }
}

/// With isolated notes dropped, every node of the whole-vault graph is the end of
/// some link.
pub proof fn lemma_hidden_isolated(
    notes: Map<Seq<char>, Note>,
    raw: Seq<(Seq<char>, Seq<char>)>,
    ns: Seq<Note>,
    x: Seq<char>,
)
    requires
        global_nodes(notes, raw, true, ns).contains_key(x),
    ensures
        connected(raw, x),
    decreases ns.len(),
{
    if ns.len() > 0 {
        let n = ns.last();
        if connected(raw, n.path@) && x == n.path@ {
        } else {
            lemma_hidden_isolated(notes, raw, ns.drop_last(), x);
        }
    }
}

/// When isolated notes are kept, every note of the vault is a node of its graph.
pub proof fn lemma_all_notes_are_nodes(
    notes: Map<Seq<char>, Note>,
    raw: Seq<(Seq<char>, Seq<char>)>,
    ns: Seq<Note>,
    i: int,
)
    requires
        0 <= i < ns.len(),
    ensures
        global_nodes(notes, raw, false, ns).contains_key(ns[i].path@),
    decreases ns.len(),
{
    if i < ns.len() - 1 {
        lemma_all_notes_are_nodes(notes, raw, ns.drop_last(), i);
        assert(ns.drop_last()[i] == ns[i]);
    }
}

/// Both ends of every kept edge are nodes, and an edge of weight 2 has its reverse
/// among the links.
pub proof fn lemma_kept_edges_sound(
    raw: Seq<(Seq<char>, Seq<char>)>,
    all: Seq<(Seq<char>, Seq<char>)>,
    dom: Set<Seq<char>>,
    k: int,
)
    requires
        0 <= k < kept_edges(raw, all, dom).len(),
    ensures
        dom.contains(kept_edges(raw, all, dom)[k].0),
        dom.contains(kept_edges(raw, all, dom)[k].1),
        kept_edges(raw, all, dom)[k].2 == 2 ==> all.contains(
            (kept_edges(raw, all, dom)[k].1, kept_edges(raw, all, dom)[k].0),
        ),
        raw.contains((kept_edges(raw, all, dom)[k].0, kept_edges(raw, all, dom)[k].1)),
    decreases raw.len(),
{
    if raw.len() > 0 {
        let r = kept_edges(raw.drop_last(), all, dom);
        if k < r.len() {
            lemma_kept_edges_sound(raw.drop_last(), all, dom, k);
            let e = kept_edges(raw, all, dom)[k];
            let j = choose|j: int| 0 <= j < raw.drop_last().len() && raw.drop_last()[j] == (e.0, e.1);
            assert(raw[j] == (e.0, e.1));
        } else {
            assert(raw[raw.len() - 1] == raw.last());
        }
    }
}

} // verus!
