//! Note lists of the pages: orphans, the notes of a tag, recent notes, and statistics.
use vstd::prelude::*;
use crate::config::views;
use crate::domain::Note;
use crate::graph::{mtime_secs, note_mtime_secs, pair_views};
use crate::indexer::note_values;
use crate::keyed::StrKeyMap;
use crate::order::{lemma_lt_total, lemma_lt_transitive, seq_le, seq_lt, str_lt};
use crate::search::{is_permutation, newest_first, result_order, SortBy};
use crate::url::{pct_decoded, percent_decode_utf8};
use vstd::utf8::{decode_utf8, valid_utf8};

verus! {

/// `order` lists the keys in ascending text order, equal keys in input order.
pub open spec fn ascending_text(order: Seq<usize>, keys: Seq<Seq<char>>) -> bool {
    forall|a: int, b: int|
        #![trigger order[a], order[b]]
        0 <= a < b < order.len() ==> seq_lt(keys[order[a] as int], keys[order[b] as int]) || (keys[order[a] as int]
            == keys[order[b] as int] && order[a] < order[b])
}

/// The positions of `keys` in ascending text order, equal keys in input order: the order
/// in which a stable sort leaves them.
pub fn order_by_text(keys: &Vec<String>) -> (r: Vec<usize>)
    ensures
        is_permutation(r@, keys@.len()),
        ascending_text(r@, views(keys@)),
{
    let ghost ks = views(keys@);
    let n = keys.len();
    let mut out: Vec<usize> = Vec::new();
    let mut i: usize = 0;
    while i < n
        invariant
            n == keys@.len(),
            ks == views(keys@),
            i <= n,
            out@.len() == i,
            forall|k: int| 0 <= k < i ==> #[trigger] out@[k] < i,
            forall|a: int, b: int| 0 <= a < b < i ==> out@[a] != out@[b],
            ascending_text(out@, ks),
        decreases n - i,
    {
        let mut p = out.len();
        while p > 0 && str_lt(keys[i].as_str(), keys[out[p - 1]].as_str())
            invariant
                n == keys@.len(),
                ks == views(keys@),
                i < n,
                out@.len() == i,
                p <= i,
                forall|k: int| 0 <= k < i ==> #[trigger] out@[k] < i,
                forall|q: int| p <= q < i ==> seq_lt(ks[i as int], ks[#[trigger] out@[q] as int]),
            decreases p,
        {
            assert(ks[out@[p - 1] as int] == keys@[out@[p - 1] as int]@);
            p -= 1;
        }
        let ghost old_out = out@;
        proof {
            if p > 0 {
                let last = p - 1;
                assert(ks[old_out[last] as int] == keys@[old_out[last] as int]@);
                lemma_lt_total(ks[i as int], ks[old_out[last] as int]);
            }
        }
        out.insert(p, i);
        proof {
            assert forall|a: int, b: int| 0 <= a < b < out@.len() implies seq_lt(ks[out@[a] as int], ks[out@[b] as int])
                || (ks[out@[a] as int] == ks[out@[b] as int] && out@[a] < out@[b]) by {
                if b < p {
                    assert(out@[a] == old_out[a] && out@[b] == old_out[b]);
                } else if b == p {
                    assert(out@[a] == old_out[a]);
                    let last = p - 1;
                    let kl = ks[old_out[last] as int];
                    assert(seq_le(kl, ks[i as int]));
                    assert(old_out[a] < i);
                    if a < last {
                        let ka = ks[old_out[a] as int];
                        assert(seq_lt(ka, kl) || (ka == kl && old_out[a] < old_out[last as int]));
                        if seq_lt(ka, kl) && kl != ks[i as int] {
                            lemma_lt_transitive(ka, kl, ks[i as int]);
                        }
                    }
                } else if a == p {
                    assert(out@[b] == old_out[b - 1]);
                } else if a < p {
                    assert(out@[a] == old_out[a] && out@[b] == old_out[b - 1]);
                    let last = p - 1;
                    let kl = ks[old_out[last] as int];
                    let ka = ks[old_out[a] as int];
                    let kb = ks[old_out[b - 1] as int];
                    assert(seq_le(kl, ks[i as int]));
                    assert(seq_lt(ks[i as int], kb));
                    if a < last {
                        assert(seq_lt(ka, kl) || (ka == kl && old_out[a] < old_out[last as int]));
                    }
                    assert(seq_le(ka, ks[i as int])) by {
                        if a < last && seq_lt(ka, kl) && kl != ks[i as int] {
                            lemma_lt_transitive(ka, kl, ks[i as int]);
                        }
                    }
                    if ka != ks[i as int] {
                        lemma_lt_transitive(ka, ks[i as int], kb);
                    }
                } else {
                    assert(out@[a] == old_out[a - 1] && out@[b] == old_out[b - 1]);
                }
            }
            assert forall|k: int| 0 <= k < i + 1 implies #[trigger] out@[k] < i + 1 by {
                if k < p {
                    assert(out@[k] == old_out[k]);
                } else if k > p {
                    assert(out@[k] == old_out[k - 1]);
                }
            }
            assert forall|a: int, b: int| 0 <= a < b < i + 1 implies out@[a] != out@[b] by {
                if b < p {
                    assert(out@[a] == old_out[a] && out@[b] == old_out[b]);
                } else if b == p {
                    assert(out@[a] == old_out[a]);
                } else if a == p {
                    assert(out@[b] == old_out[b - 1]);
                } else if a < p {
                    assert(out@[a] == old_out[a] && out@[b] == old_out[b - 1]);
                } else {
                    assert(out@[a] == old_out[a - 1] && out@[b] == old_out[b - 1]);
                }
            }
        }
        i += 1;
    }
    out
}


/// The first components of `c`.
pub open spec fn firsts(c: Seq<(Seq<char>, Seq<char>)>) -> Seq<Seq<char>> {
    c.map_values(|p: (Seq<char>, Seq<char>)| p.0)
}

/// `r` holds the pairs of `c` in ascending order of their first component, pairs with
/// equal first components in the order of `c`.
pub open spec fn by_first_stable(r: Seq<(Seq<char>, Seq<char>)>, c: Seq<(Seq<char>, Seq<char>)>) -> bool {
    exists|ord: Seq<usize>|
        #[trigger] is_permutation(ord, c.len()) && ascending_text(ord, firsts(c)) && r == ord.map_values(
            |i: usize| c[i as int],
        )
}

/// The pairs of `cand` sorted by their first component, stably.
fn sort_pairs_by_first(cand: &Vec<(String, String)>) -> (r: Vec<(String, String)>)
    ensures
        by_first_stable(pair_views(r@), pair_views(cand@)),
{
    let ghost c = pair_views(cand@);
    let mut keys: Vec<String> = Vec::new();
    let mut i: usize = 0;
    while i < cand.len()
        invariant
            i <= cand@.len(),
            keys@.len() == i,
            forall|k: int| 0 <= k < i ==> #[trigger] keys@[k]@ == cand@[k].0@,
        decreases cand@.len() - i,
    {
        keys.push(cand[i].0.clone());
        i += 1;
    }
    assert(views(keys@) =~= firsts(c));
    let ord = order_by_text(&keys);
    let mut r: Vec<(String, String)> = Vec::new();
    let mut k: usize = 0;
    while k < ord.len()
        invariant
            is_permutation(ord@, cand@.len()),
            c == pair_views(cand@),
            k <= ord@.len(),
            pair_views(r@) =~= ord@.take(k as int).map_values(|j: usize| c[j as int]),
        decreases ord@.len() - k,
    {
        let j = ord[k];
        assert(ord@[k as int] < cand@.len());
        let a = cand[j].0.clone();
        let b = cand[j].1.clone();
        assert(a@ == cand@[j as int].0@ && b@ == cand@[j as int].1@);
        let ghost before = pair_views(r@);
        r.push((a, b));
        assert(pair_views(r@) =~= before.push(c[j as int]));
        k += 1;
        assert(ord@.take(k as int) =~= ord@.take(k - 1).push(j));
    }
    assert(ord@.take(ord@.len() as int) =~= ord@);
    assert(is_permutation(ord@, c.len()));
    r
}

/// A note with no outgoing link whose title no note links to.
pub open spec fn is_orphan(n: Note, backlinks: Map<Seq<char>, Vec<String>>) -> bool {
    n.outgoing_links@.len() == 0 && !backlinks.contains_key(n.title@)
}

/// The `(title, path)` pairs of the orphan notes among `ns`, in order.
pub open spec fn orphan_candidates(ns: Seq<Note>, backlinks: Map<Seq<char>, Vec<String>>) -> Seq<
    (Seq<char>, Seq<char>),
>
    decreases ns.len(),
{
    if ns.len() == 0 {
        Seq::empty()
    } else {
        let rest = orphan_candidates(ns.drop_last(), backlinks);
        if is_orphan(ns.last(), backlinks) {
            rest.push((ns.last().title@, ns.last().path@))
        } else {
            rest
        }
    }
}

/// The orphan notes (no outgoing link, and no backlink under their title) as
/// `(title, path)` pairs sorted by title.
pub fn orphan_list(notes: &StrKeyMap<Note>, backlinks: &StrKeyMap<Vec<String>>) -> (r: Vec<(String, String)>)
    ensures
        by_first_stable(pair_views(r@), orphan_candidates(note_values(*notes), backlinks@)),
{
    let ghost ns = note_values(*notes);
    let n = notes.len();
    let mut cand: Vec<(String, String)> = Vec::new();
    let mut i: usize = 0;
    while i < n
        invariant
            n == notes.entries().len(),
            ns == note_values(*notes),
            i <= n,
            pair_views(cand@) == orphan_candidates(ns.take(i as int), backlinks@),
        decreases n - i,
    {
        let note = notes.value_at(i);
        assert(ns.take(i + 1).drop_last() =~= ns.take(i as int));
        assert(ns.take(i + 1).last() == *note);
        if note.outgoing_links.len() == 0 && !backlinks.contains_key(note.title.as_str()) {
            cand.push((note.title.clone(), note.path.clone()));
            assert(pair_views(cand@) =~= orphan_candidates(ns.take(i as int), backlinks@).push(
                (note.title@, note.path@),
            ));
        }
        i += 1;
    }
    assert(ns.take(n as int) =~= ns);
    sort_pairs_by_first(&cand)
}

/// The `(title, path)` pairs of the titles that the title index resolves, in order.
pub open spec fn tag_candidates(titles: Seq<Seq<char>>, link_index: Map<Seq<char>, String>) -> Seq<
    (Seq<char>, Seq<char>),
>
    decreases titles.len(),
{
    if titles.len() == 0 {
        Seq::empty()
    } else {
        let rest = tag_candidates(titles.drop_last(), link_index);
        let t = titles.last();
        if link_index.contains_key(t) {
            rest.push((t, link_index[t]@))
        } else {
            rest
        }
    }
}

/// The notes of tag `tag`: `None` where the tag index has no such tag, else the titles
/// listed under it that the title index resolves, as `(title, path)` pairs sorted by title.
pub fn tag_notes(tag_index: &StrKeyMap<Vec<String>>, link_index: &StrKeyMap<String>, tag: &str) -> (r: Option<
    Vec<(String, String)>,
>)
    ensures
        r is None <==> !tag_index@.contains_key(tag@),
        r is Some ==> by_first_stable(
            pair_views(r->0@),
            tag_candidates(views(tag_index@[tag@]@), link_index@),
        ),
{
    match tag_index.get(tag) {
        None => None,
        Some(titles) => {
            let ghost ts = views(titles@);
            let mut cand: Vec<(String, String)> = Vec::new();
            let mut i: usize = 0;
            while i < titles.len()
                invariant
                    ts == views(titles@),
                    i <= titles@.len(),
                    pair_views(cand@) == tag_candidates(ts.take(i as int), link_index@),
                decreases titles@.len() - i,
            {
                assert(ts.take(i + 1).drop_last() =~= ts.take(i as int));
                assert(ts.take(i + 1).last() == titles@[i as int]@);
                match link_index.get(titles[i].as_str()) {
                    Some(path) => {
                        cand.push((titles[i].clone(), path.clone()));
                        assert(pair_views(cand@) =~= tag_candidates(ts.take(i as int), link_index@).push(
                            (titles@[i as int]@, path@),
                        ));
                    },
                    None => {},
                }
                i += 1;
            }
            assert(ts.take(titles@.len() as int) =~= ts);
            Some(sort_pairs_by_first(&cand))
        },
    }
}


/// What the page of a tag shows for a tag name taken from the address.
pub enum TagLookup {
    /// The percent-decoded name is not valid UTF-8.
    BadName,
    /// No note carries the (decoded) tag.
    NotFound(String),
    /// The decoded tag and its notes as `(title, path)` pairs sorted by title.
    Found(String, Vec<(String, String)>),
}

/// Decodes the tag name of an address and looks up its notes as [`tag_notes`] does.
pub fn lookup_tag(tag_index: &StrKeyMap<Vec<String>>, link_index: &StrKeyMap<String>, raw: &str) -> (r:
    TagLookup)
    ensures
        r is BadName <==> !valid_utf8(pct_decoded(raw@)),
        r matches TagLookup::NotFound(t) ==> t@ == decode_utf8(pct_decoded(raw@)) && !tag_index@.contains_key(
            t@,
        ),
        r matches TagLookup::Found(t, list) ==> t@ == decode_utf8(pct_decoded(raw@)) && tag_index@.contains_key(
            t@,
        ) && by_first_stable(pair_views(list@), tag_candidates(views(tag_index@[t@]@), link_index@)),
        valid_utf8(pct_decoded(raw@)) && !tag_index@.contains_key(decode_utf8(pct_decoded(raw@)))
            ==> r is NotFound,
        valid_utf8(pct_decoded(raw@)) && tag_index@.contains_key(decode_utf8(pct_decoded(raw@))) ==> r is Found,
{
    match percent_decode_utf8(raw) {
        None => TagLookup::BadName,
        Some(tag) => match tag_notes(tag_index, link_index, tag.as_str()) {
            None => TagLookup::NotFound(tag),
            Some(list) => TagLookup::Found(tag, list),
        },
    }
}

/// The number of nanoseconds in a day.
pub const DAY_NANOS: u128 = 86_400_000_000_000;

/// `days` held between 1 and 365.
pub open spec fn clamp_days(days: u64) -> u64 {
    if days < 1 {
        1
    } else if days > 365 {
        365
    } else {
        days
    }
}

/// The instant `days` (held between 1 and 365) before `now`, in nanoseconds since the
/// epoch, or the epoch where that lies before it.
pub open spec fn recent_cutoff_spec(now: u128, days: u64) -> u128 {
    let span = clamp_days(days) * DAY_NANOS;
    if now >= span {
        (now - span) as u128
    } else {
        0
    }
}

/// The cutoff of the recent-notes page: `days`, held between 1 and 365, before `now_nanos`.
pub fn recent_cutoff(now_nanos: u128, days: u64) -> (c: u128)
    ensures
        c == recent_cutoff_spec(now_nanos, days),
{
    let d: u64 = if days < 1 {
        1
    } else if days > 365 {
        365
    } else {
        days
    };
    let span: u128 = (d as u128) * DAY_NANOS;
    if now_nanos >= span {
        now_nanos - span
    } else {
        0
    }
}

/// Each `(title, path, seconds)` triple taken by the views of its texts.
pub open spec fn triple_views(v: Seq<(String, String, i64)>) -> Seq<(Seq<char>, Seq<char>, i64)> {
    v.map_values(|t: (String, String, i64)| (t.0@, t.1@, t.2))
}

/// The `(title, path, seconds)` triples of the notes among `ns` modified after `cutoff`
/// (nanoseconds), in order.
pub open spec fn recent_candidates(ns: Seq<Note>, cutoff: u128) -> Seq<(Seq<char>, Seq<char>, i64)>
    decreases ns.len(),
{
    if ns.len() == 0 {
        Seq::empty()
    } else {
        let rest = recent_candidates(ns.drop_last(), cutoff);
        let n = ns.last();
        if n.mtime > cutoff {
            rest.push((n.title@, n.path@, mtime_secs(n.mtime)))
        } else {
            rest
        }
    }
}

/// `r` holds the triples of `c`, larger seconds first, triples with equal seconds in the
/// order of `c`.
pub open spec fn newest_first_stable(r: Seq<(Seq<char>, Seq<char>, i64)>, c: Seq<(Seq<char>, Seq<char>, i64)>) -> bool {
    exists|ord: Seq<usize>|
        #[trigger] is_permutation(ord, c.len()) && newest_first(
            ord,
            c.map_values(|t: (Seq<char>, Seq<char>, i64)| t.2 as int),
        ) && r == ord.map_values(|i: usize| c[i as int])
}

/// The notes modified after `cutoff` (nanoseconds since the epoch) as
/// `(title, path, seconds)` triples, most recently modified first.
pub fn recent_notes(notes: &StrKeyMap<Note>, cutoff: u128) -> (r: Vec<(String, String, i64)>)
    ensures
        newest_first_stable(triple_views(r@), recent_candidates(note_values(*notes), cutoff)),
{
    let ghost ns = note_values(*notes);
    let n = notes.len();
    let mut cand: Vec<(String, String, i64)> = Vec::new();
    let mut secs: Vec<i64> = Vec::new();
    let mut i: usize = 0;
    while i < n
        invariant
            n == notes.entries().len(),
            ns == note_values(*notes),
            i <= n,
            triple_views(cand@) == recent_candidates(ns.take(i as int), cutoff),
            secs@.len() == cand@.len(),
            forall|k: int| 0 <= k < secs@.len() ==> #[trigger] secs@[k] == cand@[k].2,
        decreases n - i,
    {
        let note = notes.value_at(i);
        assert(ns.take(i + 1).drop_last() =~= ns.take(i as int));
        assert(ns.take(i + 1).last() == *note);
        if note.mtime > cutoff {
            let t = note_mtime_secs(note);
            cand.push((note.title.clone(), note.path.clone(), t));
            secs.push(t);
            assert(triple_views(cand@) =~= recent_candidates(ns.take(i as int), cutoff).push(
                (note.title@, note.path@, t),
            ));
        }
        i += 1;
    }
    assert(ns.take(n as int) =~= ns);
    let ghost c = triple_views(cand@);
    let ord = result_order(&secs, SortBy::Modified);
    assert(secs@.map_values(|m: i64| m as int) =~= c.map_values(|t: (Seq<char>, Seq<char>, i64)| t.2 as int));
    let mut r: Vec<(String, String, i64)> = Vec::new();
    let mut k: usize = 0;
    while k < ord.len()
        invariant
            is_permutation(ord@, cand@.len()),
            c == triple_views(cand@),
            k <= ord@.len(),
            triple_views(r@) =~= ord@.take(k as int).map_values(|j: usize| c[j as int]),
        decreases ord@.len() - k,
    {
        let j = ord[k];
        assert(ord@[k as int] < cand@.len());
        let a = cand[j].0.clone();
        let b = cand[j].1.clone();
        let t = cand[j].2;
        let ghost before = triple_views(r@);
        r.push((a, b, t));
        assert(triple_views(r@) =~= before.push(c[j as int]));
        k += 1;
        assert(ord@.take(k as int) =~= ord@.take(k - 1).push(j));
    }
    assert(ord@.take(ord@.len() as int) =~= ord@);
    assert(is_permutation(ord@, c.len()));
    r
}

/// The statistics of the vault.
pub struct NoteStats {
    pub total_notes: usize,
    pub total_tags: usize,
    /// Notes modified in the last seven days.
    pub recent_updated: usize,
    /// Earliest modification time, in seconds since the epoch; `None` without notes.
    pub oldest_note_time: Option<u64>,
    /// Latest modification time, in seconds since the epoch; `None` without notes.
    pub newest_note_time: Option<u64>,
}

/// Seconds in a week.
pub const WEEK_SECS: u64 = 604_800;

/// A note's modification time in whole seconds since the epoch.
pub open spec fn note_secs(n: Note) -> u64 {
    (n.mtime / 1_000_000_000) as u64
}

/// The number of notes among `ns` modified after second `since`.
pub open spec fn recent_count(ns: Seq<Note>, since: u64) -> nat
    decreases ns.len(),
{
    if ns.len() == 0 {
        0
    } else {
        recent_count(ns.drop_last(), since) + if note_secs(ns.last()) > since {
            1nat
        } else {
            0nat
        }
    }
}

/// The earliest modification second among `ns`.
pub open spec fn oldest_secs(ns: Seq<Note>) -> Option<u64>
    decreases ns.len(),
{
    if ns.len() == 0 {
        None
    } else {
        let s = note_secs(ns.last());
        match oldest_secs(ns.drop_last()) {
            None => Some(s),
            Some(m) => Some(if s < m { s } else { m }),
        }
    }
}

/// The latest modification second among `ns`.
pub open spec fn newest_secs(ns: Seq<Note>) -> Option<u64>
    decreases ns.len(),
{
    if ns.len() == 0 {
        None
    } else {
        let s = note_secs(ns.last());
        match newest_secs(ns.drop_last()) {
            None => Some(s),
            Some(m) => Some(if s > m { s } else { m }),
        }
    }
}

/// The statistics of `notes`, with `total_tags` tags, seen at second `now_secs`.
pub fn note_stats(notes: &StrKeyMap<Note>, total_tags: usize, now_secs: u64) -> (r: NoteStats)
    ensures
        r.total_notes == notes@.len(),
        r.total_tags == total_tags,
        r.recent_updated == recent_count(
            note_values(*notes),
            if now_secs >= WEEK_SECS {
                (now_secs - WEEK_SECS) as u64
            } else {
                0
            },
        ),
        r.oldest_note_time == oldest_secs(note_values(*notes)),
        r.newest_note_time == newest_secs(note_values(*notes)),
{
    let ghost ns = note_values(*notes);
    let since: u64 = now_secs.saturating_sub(WEEK_SECS);
    let n = notes.len();
    let mut recent: usize = 0;
    let mut oldest: Option<u64> = None;
    let mut newest: Option<u64> = None;
    let mut i: usize = 0;
    while i < n
        invariant
            n == notes.entries().len(),
            ns == note_values(*notes),
            i <= n,
            recent <= i,
            recent == recent_count(ns.take(i as int), since),
            oldest == oldest_secs(ns.take(i as int)),
            newest == newest_secs(ns.take(i as int)),
        decreases n - i,
    {
        let note = notes.value_at(i);
        assert(ns.take(i + 1).drop_last() =~= ns.take(i as int));
        assert(ns.take(i + 1).last() == *note);
        let q: u128 = note.mtime / 1_000_000_000;
        #[verifier::truncate]
        let s: u64 = q as u64;
        if s > since {
            recent += 1;
        }
        oldest = match oldest {
            None => Some(s),
            Some(m) => Some(if s < m { s } else { m }),
        };
        newest = match newest {
            None => Some(s),
            Some(m) => Some(if s > m { s } else { m }),
        };
        i += 1;
    }
    assert(ns.take(n as int) =~= ns);
    NoteStats {
        total_notes: n,
        total_tags,
        recent_updated: recent,
        oldest_note_time: oldest,
        newest_note_time: newest,
    }
}


/// The note picked for a random visit, by the sub-second part of the clock: the path of
/// the note at position `nanos % count`; `None` without notes.
pub fn random_note_path(notes: &StrKeyMap<Note>, nanos: u32) -> (r: Option<String>)
    ensures
        note_values(*notes).len() == 0 <==> r is None,
        r matches Some(p) ==> p@ == note_values(*notes)[(nanos as int) % (note_values(*notes).len() as int)].path@,
{
    let n = notes.len();
    if n == 0 {
        return None;
    }
    let i = (nanos as usize) % n;
    let note = notes.value_at(i);
    Some(note.path.clone())
}


/// The orphan list holds exactly the notes that link nowhere and that no note links to.
pub proof fn lemma_orphans_exact(ns: Seq<Note>, backlinks: Map<Seq<char>, Vec<String>>)
    ensures
        forall|t: Seq<char>, p: Seq<char>|
            orphan_candidates(ns, backlinks).contains((t, p)) <==> exists|i: int|
                0 <= i < ns.len() && is_orphan(#[trigger] ns[i], backlinks) && ns[i].title@ == t && ns[i].path@ == p,
    decreases ns.len(),
{
    if ns.len() > 0 {
        let prev = ns.drop_last();
        lemma_orphans_exact(prev, backlinks);
        let c = orphan_candidates(prev, backlinks);
        let last = ns.last();
        assert forall|t: Seq<char>, p: Seq<char>|
            orphan_candidates(ns, backlinks).contains((t, p)) <==> exists|i: int|
                0 <= i < ns.len() && is_orphan(#[trigger] ns[i], backlinks) && ns[i].title@ == t && ns[i].path@ == p by {
            let full = orphan_candidates(ns, backlinks);
            if full.contains((t, p)) {
                let k = choose|k: int| 0 <= k < full.len() && full[k] == (t, p);
                if k < c.len() {
                    assert(c[k] == (t, p));
                    assert(c.contains((t, p)));
                    let i = choose|i: int| 0 <= i < prev.len() && is_orphan(#[trigger] prev[i], backlinks) && prev[i].title@ == t && prev[i].path@ == p;
                    assert(ns[i] == prev[i]);
                } else {
                    assert(ns[ns.len() - 1] == last);
                }
            }
            if exists|i: int| 0 <= i < ns.len() && is_orphan(#[trigger] ns[i], backlinks) && ns[i].title@ == t && ns[i].path@ == p {
                let i = choose|i: int| 0 <= i < ns.len() && is_orphan(#[trigger] ns[i], backlinks) && ns[i].title@ == t && ns[i].path@ == p;
                if i < ns.len() - 1 {
                    assert(prev[i] == ns[i]);
                    assert(c.contains((t, p)));
                    let k = choose|k: int| 0 <= k < c.len() && c[k] == (t, p);
                    assert(full[k] == (t, p));
                } else {
                    assert(full[full.len() - 1] == (t, p));
                }
            }
        }
    }
}

} // verus!
