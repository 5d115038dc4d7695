//! Indexes derived from the notes: backlinks, tags, the title index, and the data
//! handed to the search engine.
use vstd::prelude::*;
use crate::config::{clone_strings, views};
use crate::domain::Note;
use crate::keyed::{StrKeyMap, has_key, without_values};
use crate::order::{sort_strings, str_le};

verus! {

/// A note as the sync produces it: relative path, note, outgoing links, and the raw
/// Markdown text when the note was (re)processed in this sync.
pub type ProcessedNote = (String, Note, Vec<String>, Option<String>);

/// The notes of a note map, in entry order.
pub open spec fn note_values(m: StrKeyMap<Note>) -> Seq<Note> {
    m.entries().map_values(|e: (String, Note)| e.1)
}

/// The list map with each list taken by its view.
pub open spec fn list_view(m: Map<Seq<char>, Vec<String>>) -> Map<Seq<char>, Seq<Seq<char>>> {
    m.map_values(|v: Vec<String>| views(v@))
}

/// Appending `item` to the list stored under `key` (a new list if there is none).
pub open spec fn add_item(m: Map<Seq<char>, Seq<Seq<char>>>, key: Seq<char>, item: Seq<char>) -> Map<
    Seq<char>,
    Seq<Seq<char>>,
> {
    m.insert(key, if m.contains_key(key) { m[key].push(item) } else { seq![item] })
}

/// Appending `item` under each key of `keys`, in order.
pub open spec fn add_under_all(
    m: Map<Seq<char>, Seq<Seq<char>>>,
    keys: Seq<Seq<char>>,
    item: Seq<char>,
) -> Map<Seq<char>, Seq<Seq<char>>>
    decreases keys.len(),
{
    if keys.len() == 0 {
        m
    } else {
        add_item(add_under_all(m, keys.drop_last(), item), keys.last(), item)
    }
}

/// Backlinks: each link target mapped to the titles of the notes that link to it,
/// once per link, in note order.
pub open spec fn backlinks_of(notes: Seq<Note>) -> Map<Seq<char>, Seq<Seq<char>>>
    decreases notes.len(),
{
    if notes.len() == 0 {
        Map::empty()
    } else {
        add_under_all(
            backlinks_of(notes.drop_last()),
            views(notes.last().outgoing_links@),
            notes.last().title@,
        )
    }
}

/// Appending under keys adds exactly those keys and keeps every list non-empty.
proof fn lemma_add_under_all(m: Map<Seq<char>, Seq<Seq<char>>>, keys: Seq<Seq<char>>, item: Seq<char>)
    ensures
        forall|t: Seq<char>|
            #[trigger] add_under_all(m, keys, item).contains_key(t) <==> (m.contains_key(t) || keys.contains(t)),
        (forall|t: Seq<char>| m.contains_key(t) ==> #[trigger] m[t].len() > 0) ==> (forall|t: Seq<char>|
            add_under_all(m, keys, item).contains_key(t) ==> #[trigger] add_under_all(m, keys, item)[t].len() > 0),
    decreases keys.len(),
{
    if keys.len() > 0 {
        let prev = keys.drop_last();
        lemma_add_under_all(m, prev, item);
        let inner = add_under_all(m, prev, item);
        let k = keys.last();
        let whole = add_under_all(m, keys, item);
        assert(whole == add_item(inner, k, item));
        assert(whole == inner.insert(k, if inner.contains_key(k) { inner[k].push(item) } else { seq![item] }));
        assert(whole[k].len() > 0);
        assert(forall|t: Seq<char>| t != k ==> (#[trigger] whole.contains_key(t) == inner.contains_key(t)) && (
        whole.contains_key(t) ==> whole[t] == inner[t]));
        assert forall|t: Seq<char>| #[trigger] add_under_all(m, keys, item).contains_key(t) <==> (m.contains_key(t)
            || keys.contains(t)) by {
            if prev.contains(t) {
                let k = choose|k: int| 0 <= k < prev.len() && prev[k] == t;
                assert(keys[k] == t);
            }
            if keys.contains(t) && t != keys.last() {
                let k = choose|k: int| 0 <= k < keys.len() && keys[k] == t;
                assert(k != keys.len() - 1);
                assert(prev[k] == t);
            }
            if t == keys.last() {
                assert(keys[keys.len() - 1] == t);
            }
        }
    }
}

/// Backlinks hold exactly the link targets: a target is a key when some note links to
/// it, and only then, and no key has an empty list.
pub proof fn lemma_backlinks_keys(notes: Seq<Note>)
    ensures
        forall|t: Seq<char>|
            #[trigger] backlinks_of(notes).contains_key(t) <==> exists|i: int, j: int|
                0 <= i < notes.len() && 0 <= j < notes[i].outgoing_links@.len() && #[trigger] notes[i].outgoing_links@[j]@
                    == t,
        forall|t: Seq<char>| backlinks_of(notes).contains_key(t) ==> #[trigger] backlinks_of(notes)[t].len() > 0,
    decreases notes.len(),
{
    if notes.len() > 0 {
        let prev = notes.drop_last();
        let n = notes.last();
        let lv = views(n.outgoing_links@);
        lemma_backlinks_keys(prev);
        lemma_add_under_all(backlinks_of(prev), lv, n.title@);
        assert forall|t: Seq<char>| #[trigger] backlinks_of(notes).contains_key(t) <==> exists|i: int, j: int|
            0 <= i < notes.len() && 0 <= j < notes[i].outgoing_links@.len() && #[trigger] notes[i].outgoing_links@[j]@
                == t by {
            if backlinks_of(prev).contains_key(t) {
                let (i, j) = choose|i: int, j: int|
                    0 <= i < prev.len() && 0 <= j < prev[i].outgoing_links@.len() && #[trigger] prev[i].outgoing_links@[j]@
                        == t;
                assert(notes[i] == prev[i]);
                assert(notes[i].outgoing_links@[j]@ == t);
            }
            if lv.contains(t) {
                let j = choose|j: int| 0 <= j < lv.len() && lv[j] == t;
                assert(notes[notes.len() - 1].outgoing_links@[j]@ == t);
            }
            if exists|i: int, j: int|
                0 <= i < notes.len() && 0 <= j < notes[i].outgoing_links@.len() && #[trigger] notes[i].outgoing_links@[j]@
                    == t {
                let (i, j) = choose|i: int, j: int|
                    0 <= i < notes.len() && 0 <= j < notes[i].outgoing_links@.len() && #[trigger] notes[i].outgoing_links@[j]@
                        == t;
                if i < prev.len() {
                    assert(prev[i] == notes[i]);
                    assert(prev[i].outgoing_links@[j]@ == t);
                } else {
                    assert(lv[j] == t);
                    assert(lv.contains(t));
                }
            }
        }
    }
}

/// How often `t` occurs among `keys`.
pub open spec fn occurrences(keys: Seq<Seq<char>>, t: Seq<char>) -> nat
    decreases keys.len(),
{
    if keys.len() == 0 {
        0
    } else {
        occurrences(keys.drop_last(), t) + if keys.last() == t {
            1nat
        } else {
            0nat
        }
    }
}

/// The list stored under `t`, empty when there is none.
pub open spec fn list_at(m: Map<Seq<char>, Seq<Seq<char>>>, t: Seq<char>) -> Seq<Seq<char>> {
    if m.contains_key(t) {
        m[t]
    } else {
        Seq::empty()
    }
}

/// The titles of the notes of `ns` that link to `t`, in note order, each as often as the
/// note links to `t`.
pub open spec fn linkers(ns: Seq<Note>, t: Seq<char>) -> Seq<Seq<char>>
    decreases ns.len(),
{
    if ns.len() == 0 {
        Seq::empty()
    } else {
        let n = ns.last();
        linkers(ns.drop_last(), t) + Seq::new(occurrences(views(n.outgoing_links@), t), |_i: int| n.title@)
    }
}

/// Appending `item` under `keys` adds it under `t` once per occurrence of `t`.
proof fn lemma_add_under_all_list(m: Map<Seq<char>, Seq<Seq<char>>>, keys: Seq<Seq<char>>, item: Seq<char>, t: Seq<char>)
    ensures
        list_at(add_under_all(m, keys, item), t) == list_at(m, t) + Seq::new(occurrences(keys, t), |_i: int| item),
    decreases keys.len(),
{
    if keys.len() == 0 {
        assert(list_at(m, t) + Seq::new(0, |_i: int| item) =~= list_at(m, t));
    } else {
        let prev = keys.drop_last();
        lemma_add_under_all_list(m, prev, item, t);
        let inner = add_under_all(m, prev, item);
        let k = keys.last();
        assert(add_under_all(m, keys, item) == add_item(inner, k, item));
        if k == t {
            assert(list_at(add_item(inner, k, item), t) == list_at(inner, t).push(item));
            assert(list_at(m, t) + Seq::new(occurrences(prev, t), |_i: int| item).push(item) =~= list_at(m, t)
                + Seq::new(occurrences(keys, t), |_i: int| item));
        } else {
            assert(list_at(add_item(inner, k, item), t) == list_at(inner, t));
        }
    }
}

/// The backlinks of a target are the titles of the notes that link to it, in note
/// order, each once per link (see `linkers`).
pub proof fn lemma_backlinks_lists(notes: Seq<Note>, t: Seq<char>)
    ensures
        list_at(backlinks_of(notes), t) == linkers(notes, t),
    decreases notes.len(),
{
    if notes.len() == 0 {
        assert(list_at(Map::<Seq<char>, Seq<Seq<char>>>::empty(), t) =~= Seq::<Seq<char>>::empty());
    } else {
        let prev = notes.drop_last();
        let n = notes.last();
        lemma_backlinks_lists(prev, t);
        lemma_add_under_all_list(backlinks_of(prev), views(n.outgoing_links@), n.title@, t);
    }
}

/// Tags: each tag mapped to the titles of the notes that carry it, in note order.
pub open spec fn tags_of(notes: Seq<Note>) -> Map<Seq<char>, Seq<Seq<char>>>
    decreases notes.len(),
{
    if notes.len() == 0 {
        Map::empty()
    } else {
        add_under_all(tags_of(notes.drop_last()), views(notes.last().tags@), notes.last().title@)
    }
}

/// Appends `item` to the list stored under `key` in an index map.
pub fn push_item(m: &mut StrKeyMap<Vec<String>>, key: &String, item: &String)
    ensures
        list_view(final(m)@) == add_item(list_view(old(m)@), key@, item@),
{
    let ghost old_view = m@;
    let existing = m.remove(key.as_str());
    let list = match existing {
        Some(mut v) => {
            v.push(item.clone());
            v
        },
        None => {
            let mut v: Vec<String> = Vec::new();
            v.push(item.clone());
            v
        },
    };
    let ghost list_v = list;
    m.insert(key.clone(), list);
    proof {
        assert(m@ == old_view.remove(key@).insert(key@, list_v));
        if old_view.contains_key(key@) {
            assert(views(list_v@) =~= views(old_view[key@]@).push(item@));
        } else {
            assert(views(list_v@) =~= seq![item@]);
        }
        assert(list_view(m@) =~= add_item(list_view(old_view), key@, item@));
    }
}

/// Appends `item` under each of `keys`.
fn push_under_all(m: &mut StrKeyMap<Vec<String>>, keys: &Vec<String>, item: &String)
    ensures
        list_view(final(m)@) == add_under_all(list_view(old(m)@), views(keys@), item@),
{
    let ghost start = list_view(m@);
    let mut j: usize = 0;
    assert(views(keys@).take(0) =~= Seq::<Seq<char>>::empty());
    while j < keys.len()
        invariant
            j <= keys@.len(),
            list_view(m@) == add_under_all(start, views(keys@).take(j as int), item@),
        decreases keys@.len() - j,
    {
        push_item(m, &keys[j], item);
        proof {
            let t = views(keys@).take(j + 1);
            assert(t.drop_last() =~= views(keys@).take(j as int));
            assert(t.last() == keys@[j as int]@);
        }
        j += 1;
    }
    assert(views(keys@).take(keys@.len() as int) =~= views(keys@));
}

/// The backlink index builder.
pub struct BacklinkBuilder;

impl BacklinkBuilder {
    /// Backlinks rebuilt from the outgoing links of all notes: each link target is mapped
    /// to the titles of the notes that link to it.
    pub fn build(notes: &StrKeyMap<Note>) -> (r: StrKeyMap<Vec<String>>)
        ensures
            list_view(r@) == backlinks_of(note_values(*notes)),
    {
        let mut backlinks: StrKeyMap<Vec<String>> = StrKeyMap::new();
        let mut i: usize = 0;
        assert(list_view(backlinks@) =~= Map::empty());
        assert(note_values(*notes).take(0) =~= Seq::<Note>::empty());
        while i < notes.len()
            invariant
                i <= notes.entries().len(),
                list_view(backlinks@) == backlinks_of(note_values(*notes).take(i as int)),
            decreases notes.entries().len() - i,
        {
            let note = notes.value_at(i);
            push_under_all(&mut backlinks, &note.outgoing_links, &note.title);
            proof {
                let t = note_values(*notes).take(i + 1);
                assert(t.drop_last() =~= note_values(*notes).take(i as int));
                assert(t.last() == *note);
            }
            i += 1;
        }
        assert(note_values(*notes).take(notes.entries().len() as int) =~= note_values(*notes));
        backlinks
    }
}

/// The tag index builder.
pub struct TagIndexBuilder;

impl TagIndexBuilder {
    /// Tag index: each tag mapped to the titles of the notes that carry it, each list
    /// sorted in ascending order.
    pub fn build(notes: &StrKeyMap<Note>) -> (r: StrKeyMap<Vec<String>>)
        ensures
            list_view(r@) == tags_of(note_values(*notes)).map_values(
                |s: Seq<Seq<char>>| s.sort_by(str_le()),
            ),
    {
        let mut index: StrKeyMap<Vec<String>> = StrKeyMap::new();
        let mut i: usize = 0;
        assert(list_view(index@) =~= Map::empty());
        assert(note_values(*notes).take(0) =~= Seq::<Note>::empty());
        while i < notes.len()
            invariant
                i <= notes.entries().len(),
                list_view(index@) == tags_of(note_values(*notes).take(i as int)),
            decreases notes.entries().len() - i,
        {
            let note = notes.value_at(i);
            push_under_all(&mut index, &note.tags, &note.title);
            proof {
                let t = note_values(*notes).take(i + 1);
                assert(t.drop_last() =~= note_values(*notes).take(i as int));
                assert(t.last() == *note);
            }
            i += 1;
        }
        assert(note_values(*notes).take(notes.entries().len() as int) =~= note_values(*notes));
        sort_lists(&index)
    }
}

/// The same index with every list sorted.
fn sort_lists(m: &StrKeyMap<Vec<String>>) -> (r: StrKeyMap<Vec<String>>)
    ensures
        list_view(r@) == list_view(m@).map_values(|s: Seq<Seq<char>>| s.sort_by(str_le())),
{
    let mut out: StrKeyMap<Vec<String>> = StrKeyMap::new();
    let mut i: usize = 0;
    let total = m.len();
    while i < total
        invariant
            i <= m.entries().len(),
            total == m.entries().len(),
            m@ == crate::keyed::entries_map(m.entries()),
            forall|k: Seq<char>|
                #[trigger] out@.contains_key(k) <==> exists|j: int|
                    0 <= j < i && m.entries()[j].0@ == k,
            forall|k: Seq<char>| #[trigger]
                out@.contains_key(k) ==> m@.contains_key(k) && views(out@[k]@) == views(
                    m@[k]@,
                ).sort_by(str_le()),
        decreases m.entries().len() - i,
    {
        let key = m.key_at(i).clone();
        let list = clone_strings(m.value_at(i));
        let sorted = sort_strings(list);
        let ghost before = out@;
        out.insert(key, sorted);
        proof {
            assert forall|k: Seq<char>|
                #[trigger] out@.contains_key(k) implies exists|j: int|
                    0 <= j < i + 1 && m.entries()[j].0@ == k by {
                if k != m.entries()[i as int].0@ {
                    assert(before.contains_key(k));
                }
            }
            assert forall|k: Seq<char>|
                (exists|j: int| 0 <= j < i + 1 && m.entries()[j].0@ == k) implies #[trigger] out@.contains_key(k) by {
                if k != m.entries()[i as int].0@ {
                    let j = choose|j: int| 0 <= j < i + 1 && m.entries()[j].0@ == k;
                    assert(j < i);
                    assert(before.contains_key(k));
                }
            }
        }
        i += 1;
    }
    proof {
        let a = list_view(out@);
        let b = list_view(m@).map_values(|s: Seq<Seq<char>>| s.sort_by(str_le()));
        assert forall|k: Seq<char>| #![auto] a.contains_key(k) <==> b.contains_key(k) by {
            if m@.contains_key(k) {
                assert(has_key(m.entries(), k));
                let j = choose|j: int| 0 <= j < m.entries().len() && m.entries()[j].0@ == k;
                assert(out@.contains_key(k));
            }
        }
        assert(a =~= b);
    }
    out
}

/// The title index updater.
pub struct IndexUpdater;

/// Inserting processed notes into the note map, each under its path.
pub open spec fn notes_after(notes: Map<Seq<char>, Note>, processed: Seq<ProcessedNote>) -> Map<
    Seq<char>,
    Note,
>
    decreases processed.len(),
{
    if processed.len() == 0 {
        notes
    } else {
        notes_after(notes, processed.drop_last()).insert(processed.last().0@, processed.last().1)
    }
}

/// Inserting processed notes into the title index, each title mapped to its path.
pub open spec fn titles_after(index: Map<Seq<char>, String>, processed: Seq<ProcessedNote>) -> Map<
    Seq<char>,
    String,
>
    decreases processed.len(),
{
    if processed.len() == 0 {
        index
    } else {
        titles_after(index, processed.drop_last()).insert(
            processed.last().1.title@,
            processed.last().0,
        )
    }
}

/// The paths of processed notes.
pub open spec fn processed_paths(processed: Seq<ProcessedNote>) -> Seq<Seq<char>> {
    processed.map_values(|p: ProcessedNote| p.0@)
}

impl IndexUpdater {
    /// Incremental update: the processed notes replace or join the notes under their
    /// paths; title entries that pointed to one of those paths are dropped, then each
    /// processed note's title is mapped to its path. Other notes stay as they were.
    pub fn update_notes_and_links(
        notes_map: &mut StrKeyMap<Note>,
        link_index: &mut StrKeyMap<String>,
        processed_notes: Vec<ProcessedNote>,
    )
        ensures
            final(notes_map)@ == notes_after(old(notes_map)@, processed_notes@),
            final(link_index)@ == titles_after(
                without_values(old(link_index)@, processed_paths(processed_notes@)),
                processed_notes@,
            ),
    {
        let mut updating: Vec<String> = Vec::new();
        let mut i: usize = 0;
        while i < processed_notes.len()
            invariant
                i <= processed_notes@.len(),
                views(updating@) == processed_paths(processed_notes@).take(i as int),
            decreases processed_notes@.len() - i,
        {
            let ghost pre = views(updating@);
            updating.push(processed_notes[i].0.clone());
            assert(views(updating@) =~= pre.push(processed_notes@[i as int].0@));
            assert(processed_paths(processed_notes@).take(i + 1) =~= processed_paths(
                processed_notes@,
            ).take(i as int).push(processed_notes@[i as int].0@));
            i += 1;
        }
        assert(processed_paths(processed_notes@).take(processed_notes@.len() as int)
            =~= processed_paths(processed_notes@));
        link_index.retain_values_not_in(&updating);
        let ghost all = processed_notes@;
        let ghost notes0 = notes_map@;
        let ghost links0 = link_index@;
        assert(processed_notes@.len() <= usize::MAX);
        let mut rest = processed_notes;
        let mut n: usize = 0;
        assert(all.take(0) =~= Seq::<ProcessedNote>::empty());
        while rest.len() > 0
            invariant
                n + rest@.len() == all.len(),
                all.len() <= usize::MAX,
                rest@ == all.skip(n as int),
                notes_map@ == notes_after(notes0, all.take(n as int)),
                link_index@ == titles_after(links0, all.take(n as int)),
            decreases rest@.len(),
        {
            let (path, note, _links, _content) = rest.remove(0);
            let ghost item = (path, note, _links, _content);
            assert(item == all[n as int]);
            let title = note.title.clone();
            notes_map.insert(path.clone(), note);
            link_index.insert(title, path);
            proof {
                assert(all.take(n + 1).drop_last() =~= all.take(n as int));
                assert(rest@ =~= all.skip(n + 1));
            }
            n += 1;
        }
        assert(all.take(all.len() as int) =~= all);
    }
}

/// The search engine's view of a note: path, title, raw text, modification time, tags.
pub type SearchEntry = (String, String, String, u128, Vec<String>);

/// The search data of the notes that were (re)processed: those that carry their raw text.
pub open spec fn search_data_of(processed: Seq<ProcessedNote>) -> Seq<
    (Seq<char>, Seq<char>, Seq<char>, u128, Seq<Seq<char>>),
>
    decreases processed.len(),
{
    if processed.len() == 0 {
        Seq::empty()
    } else {
        let p = processed.last();
        let prev = search_data_of(processed.drop_last());
        match p.3 {
            Some(content) => prev.push((p.0@, p.1.title@, content@, p.1.mtime, views(p.1.tags@))),
            None => prev,
        }
    }
}

/// The view of a search entry.
pub open spec fn entry_view(e: SearchEntry) -> (Seq<char>, Seq<char>, Seq<char>, u128, Seq<Seq<char>>) {
    (e.0@, e.1@, e.2@, e.3, views(e.4@))
}

/// The search-data extractor.
pub struct SearchIndexDataExtractor;

impl SearchIndexDataExtractor {
    /// The entries that the search engine must (re)index: one per processed note that
    /// carries its raw text, in order.
    pub fn extract(processed: &Vec<ProcessedNote>) -> (r: Vec<SearchEntry>)
        ensures
            r@.map_values(|e: SearchEntry| entry_view(e)) == search_data_of(processed@),
    {
        let mut out: Vec<SearchEntry> = Vec::new();
        let mut i: usize = 0;
        assert(processed@.take(0) =~= Seq::<ProcessedNote>::empty());
        while i < processed.len()
            invariant
                i <= processed@.len(),
                out@.map_values(|e: SearchEntry| entry_view(e)) == search_data_of(
                    processed@.take(i as int),
                ),
            decreases processed@.len() - i,
        {
            let p = &processed[i];
            let ghost prev = out@.map_values(|e: SearchEntry| entry_view(e));
            match &p.3 {
                Some(content) => {
                    out.push(
                        (
                            p.0.clone(),
                            p.1.title.clone(),
                            content.clone(),
                            p.1.mtime,
                            clone_strings(&p.1.tags),
                        ),
                    );
                    assert(out@.map_values(|e: SearchEntry| entry_view(e)) =~= prev.push(
                        (p.0@, p.1.title@, content@, p.1.mtime, views(p.1.tags@)),
                    ));
                },
                None => {},
            }
            proof {
                let t = processed@.take(i + 1);
                assert(t.drop_last() =~= processed@.take(i as int));
                assert(t.last() == *p);
            }
            i += 1;
        }
        assert(processed@.take(processed@.len() as int) =~= processed@);
        out
    }
}


// ─── Asset files ─────────────────────────────────────────────────────────────

/// An entry of the vault directory as the directory walk reports it.
pub struct VaultFile {
    /// Whether the entry is a regular file.
    pub is_file: bool,
    /// The extension of its name, if it has one.
    pub extension: Option<String>,
    pub file_name: String,
    /// Its path relative to the vault root, with the platform's separators.
    pub relative_path: String,
}

/// A path with every `\` replaced by `/`.
pub open spec fn forward_slashes(p: Seq<char>) -> Seq<char> {
    p.map_values(|c: char| if c == '\\' { '/' } else { c })
}

/// The asset index of the walked entries: each file that is no Markdown note is stored
/// under its file name with its relative path (forward slashes); a later file with the
/// same name replaces an earlier one.
pub open spec fn asset_index(fs: Seq<VaultFile>) -> Map<Seq<char>, Seq<char>>
    decreases fs.len(),
{
    if fs.len() == 0 {
        Map::empty()
    } else {
        let prev = asset_index(fs.drop_last());
        let f = fs.last();
        if f.is_file && !(f.extension is Some && f.extension->0@ == "md"@) {
            prev.insert(f.file_name@, forward_slashes(f.relative_path@))
        } else {
            prev
        }
    }
}

/// Builds the index of the vault's asset files.
pub struct FileIndexBuilder;

/// `p` with every `\` replaced by `/`.
fn to_forward_slashes(p: &String) -> (r: String)
    ensures
        r@ == forward_slashes(p@),
{
    let v = crate::text::str_to_chars(p.as_str());
    let mut r = String::new();
    let mut i: usize = 0;
    while i < v.len()
        invariant
            i <= v@.len(),
            v@ == p@,
            r@ == forward_slashes(v@.take(i as int)),
        decreases v@.len() - i,
    {
        let c = v[i];
        if c == '\\' {
            r.push('/');
        } else {
            r.push(c);
        }
        i += 1;
        assert(r@ =~= forward_slashes(v@.take(i as int)));
    }
    assert(v@.take(v@.len() as int) =~= v@);
    r
}

impl FileIndexBuilder {
    /// The asset index of the walked entries (see `asset_index`).
    pub fn build(files: &Vec<VaultFile>) -> (r: StrKeyMap<String>)
        ensures
            r@.map_values(|v: String| v@) == asset_index(files@),
    {
        let mut index: StrKeyMap<String> = StrKeyMap::new();
        let mut i: usize = 0;
        assert(files@.take(0) =~= Seq::<VaultFile>::empty());
        assert(index@.map_values(|v: String| v@) =~= Map::<Seq<char>, Seq<char>>::empty());
        while i < files.len()
            invariant
                i <= files@.len(),
                index@.map_values(|v: String| v@) == asset_index(files@.take(i as int)),
            decreases files@.len() - i,
        {
            let f = &files[i];
            assert(files@.take(i + 1).drop_last() =~= files@.take(i as int));
            let is_md = match &f.extension {
                Some(e) => crate::text::str_eq(e.as_str(), "md"),
                None => false,
            };
            if f.is_file && !is_md {
                let ghost before = index@;
                index.insert(f.file_name.clone(), to_forward_slashes(&f.relative_path));
                assert(index@.map_values(|v: String| v@) =~= before.map_values(|v: String| v@).insert(
                    f.file_name@,
                    forward_slashes(f.relative_path@),
                ));
            }
            i += 1;
        }
        assert(files@.take(files@.len() as int) =~= files@);
        index
    }
}
} // verus!
