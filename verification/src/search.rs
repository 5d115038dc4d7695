//! Search support: result ordering and snippets around the full-text index.
use vstd::prelude::*;
use crate::config::views;
use crate::text::{split_chars, split_on, str_to_chars, trim_range, trim_ws, trimmed_string};

verus! {

/// How search results are ordered.
#[derive(Clone, Copy, Debug, PartialEq, Eq, Structural)]
pub enum SortBy {
    /// By relevance, as the index ranks them (the default).
    Relevance,
    /// By modification time, newest first.
    Modified,
}

impl Default for SortBy {
    fn default() -> (r: Self)
        ensures
            r == SortBy::Relevance,
    {
        SortBy::Relevance
    }
}


/// `order` lists each position below `n` exactly once.
pub open spec fn is_permutation(order: Seq<usize>, n: nat) -> bool {
    &&& order.len() == n
    &&& forall|i: int| 0 <= i < n ==> #[trigger] order[i] < n
    &&& forall|i: int, j: int| 0 <= i < j < n ==> order[i] != order[j]
}

/// `order` puts larger keys first and, among equal keys, keeps the input order.
pub open spec fn newest_first(order: Seq<usize>, keys: Seq<int>) -> bool {
    forall|a: int, b: int|
        #![trigger order[a], order[b]]
        0 <= a < b < order.len() ==> keys[order[a] as int] > keys[order[b] as int] || (keys[order[a] as int]
            == keys[order[b] as int] && order[a] < order[b])
}

/// The positions of `keys` ordered by key, largest first, equal keys in input order: the
/// order in which a stable descending sort leaves the items.
pub fn order_newest_first(keys: &Vec<u128>) -> (r: Vec<usize>)
    ensures
        is_permutation(r@, keys@.len()),
        newest_first(r@, keys@.map_values(|k: u128| k as int)),
{
    let ghost ks = keys@.map_values(|k: u128| k as int);
    let n = keys.len();
    let mut out: Vec<usize> = Vec::new();
    let mut i: usize = 0;
    while i < n
        invariant
            n == keys@.len(),
            i <= n,
            out@.len() == i,
            forall|k: int| 0 <= k < i ==> #[trigger] out@[k] < i,
            forall|a: int, b: int| 0 <= a < b < i ==> out@[a] != out@[b],
            ks == keys@.map_values(|k: u128| k as int),
            newest_first(out@, ks),
        decreases n - i,
    {
        let key = keys[i];
        let mut p = out.len();
        while p > 0 && keys[out[p - 1]] < key
            invariant
                n == keys@.len(),
                i < n,
                out@.len() == i,
                p <= i,
                forall|k: int| 0 <= k < i ==> #[trigger] out@[k] < i,
                forall|q: int| p <= q < i ==> keys@[#[trigger] out@[q] as int] < key,
            decreases p,
        {
            p -= 1;
        }
        let ghost old_out = out@;
        out.insert(p, i);
        proof {
            assert forall|a: int, b: int| 0 <= a < b < out@.len() implies ks[out@[a] as int]
                > ks[out@[b] as int] || (ks[out@[a] as int] == ks[out@[b] as int] && out@[a]
                < out@[b]) by {
                if b < p {
                    assert(out@[a] == old_out[a] && out@[b] == old_out[b]);
                } else if b == p {
                    assert(out@[a] == old_out[a]);
                    assert(p > 0);
                    let last = p - 1;
                    assert(old_out[last as int] < i);
                    if a < last {
                        assert(ks[old_out[a] as int] > ks[old_out[last as int] as int] || (ks[old_out[a] as int]
                            == ks[old_out[last as int] as int] && old_out[a] < old_out[last as int]));
                    }
                } else if a == p {
                    assert(out@[b] == old_out[b - 1]);
                } else if a < p {
                    assert(out@[a] == old_out[a] && out@[b] == old_out[b - 1]);
                } else {
                    assert(out@[a] == old_out[a - 1] && out@[b] == old_out[b - 1]);
                }
            }
            assert forall|k: int| 0 <= k < i + 1 implies #[trigger] out@[k] < i + 1 by {
                if k < p {
                    assert(out@[k] == old_out[k]);
                } else if k > p {
                    assert(out@[k] == old_out[k - 1]);
                }
            }
            assert forall|a: int, b: int| 0 <= a < b < i + 1 implies out@[a] != out@[b] by {
                if b < p {
                    assert(out@[a] == old_out[a] && out@[b] == old_out[b]);
                } else if b == p {
                    assert(out@[a] == old_out[a]);
                } else if a == p {
                    assert(out@[b] == old_out[b - 1]);
                } else if a < p {
                    assert(out@[a] == old_out[a] && out@[b] == old_out[b - 1]);
                } else {
                    assert(out@[a] == old_out[a - 1] && out@[b] == old_out[b - 1]);
                }
            }
        }
        i += 1;
    }
    out
}


/// The order of search results: as ranked for relevance; newest first, ties in rank
/// order, by modification time.
pub fn result_order(mtimes: &Vec<i64>, sort_by: SortBy) -> (r: Vec<usize>)
    ensures
        is_permutation(r@, mtimes@.len()),
        sort_by == SortBy::Relevance ==> r@ == Seq::new(mtimes@.len(), |i: int| i as usize),
        sort_by == SortBy::Modified ==> newest_first(r@, mtimes@.map_values(|m: i64| m as int)),
{
    let n = mtimes.len();
    match sort_by {
        SortBy::Relevance => {
            let mut r: Vec<usize> = Vec::new();
            let mut i: usize = 0;
            while i < n
                invariant
                    n == mtimes@.len(),
                    i <= n,
                    r@ == Seq::new(i as nat, |k: int| k as usize),
                decreases n - i,
            {
                r.push(i);
                i += 1;
                assert(r@ =~= Seq::new(i as nat, |k: int| k as usize));
            }
            r
        },
        SortBy::Modified => {
            let mut keys: Vec<u128> = Vec::new();
            let mut i: usize = 0;
            while i < n
                invariant
                    n == mtimes@.len(),
                    i <= n,
                    keys@.len() == i,
                    forall|k: int| 0 <= k < i ==> #[trigger] keys@[k] as int == mtimes@[k] as int + 0x8000_0000_0000_0000,
                decreases n - i,
            {
                let shifted: u128 = ((mtimes[i] as i128) + 0x8000_0000_0000_0000i128) as u128;
                keys.push(shifted);
                i += 1;
            }
            let r = order_newest_first(&keys);
            proof {
                let ks = keys@.map_values(|k: u128| k as int);
                let ms = mtimes@.map_values(|m: i64| m as int);
                assert forall|a: int, b: int|
                    #![trigger r@[a], r@[b]]
                    0 <= a < b < r@.len() implies ms[r@[a] as int] > ms[r@[b] as int] || (ms[r@[a] as int]
                        == ms[r@[b] as int] && r@[a] < r@[b]) by {
                    assert(ks[r@[a] as int] > ks[r@[b] as int] || (ks[r@[a] as int] == ks[r@[b] as int] && r@[a]
                        < r@[b]));
                    assert(keys@[r@[a] as int] as int == mtimes@[r@[a] as int] as int + 0x8000_0000_0000_0000);
                    assert(keys@[r@[b] as int] as int == mtimes@[r@[b] as int] as int + 0x8000_0000_0000_0000);
                }
            }
            r
        },
    }
}

/// The query text with every `"` and `\` removed, the fallback when the query syntax
/// does not parse.
pub open spec fn without_quotes(q: Seq<char>) -> Seq<char> {
    q.filter(|c: char| c != '"' && c != '\\')
}

/// Removes `"` and `\` from a query (see `without_quotes`).
pub fn strip_query_quotes(q: &str) -> (r: String)
    ensures
        r@ == without_quotes(q@),
{
    let v = str_to_chars(q);
    let mut r = String::new();
    let mut i: usize = 0;
    assert(v@.take(0).filter(|c: char| c != '"' && c != '\\') =~= Seq::<char>::empty());
    while i < v.len()
        invariant
            i <= v@.len(),
            v@ == q@,
            r@ == v@.take(i as int).filter(|c: char| c != '"' && c != '\\'),
        decreases v@.len() - i,
    {
        let c = v[i];
        proof {
            assert(v@.take(i + 1) =~= v@.take(i as int).push(c));
            v@.take(i as int).lemma_filter_push(c, |c: char| c != '"' && c != '\\');
        }
        if c != '"' && c != '\\' {
            r.push(c);
        }
        i += 1;
    }
    assert(v@.take(v@.len() as int) =~= v@);
    r
}

/// The filters of a search, each present only where it restricts anything.
pub struct SearchFilters {
    /// The text query, where it is not blank.
    pub text: Option<String>,
    /// Tags one of which each result carries; empty for no tag filter.
    pub tags: Vec<String>,
    /// The folder the results lie in.
    pub folder: Option<String>,
    /// Earliest modification time, in Unix seconds.
    pub date_from: Option<i64>,
    /// Latest modification time, in Unix seconds.
    pub date_to: Option<i64>,
}

/// The filters of a search for `query`: the text unless it is blank, the tag list
/// unless absent, the folder unless absent or empty, and the date bounds as given.
pub fn search_filters(
    query: &str,
    tags: Option<Vec<String>>,
    folder: Option<String>,
    date_from: Option<i64>,
    date_to: Option<i64>,
) -> (r: SearchFilters)
    ensures
        r.text is Some <==> trim_ws(query@).len() > 0,
        r.text matches Some(t) ==> t@ == query@,
        tags matches Some(t) ==> r.tags@ == t@,
        tags is None ==> r.tags@.len() == 0,
        r.folder is Some <==> (folder is Some && folder->0@.len() > 0),
        r.folder matches Some(f) ==> f@ == folder->0@,
        r.date_from == date_from,
        r.date_to == date_to,
{
    let v = str_to_chars(query);
    let (a, b) = trim_range(&v, 0, v.len());
    assert(v@.subrange(0, v@.len() as int) =~= v@);
    let text = if a < b {
        Some(query.to_string())
    } else {
        None
    };
    let tag_list = match tags {
        Some(t) => t,
        None => Vec::new(),
    };
    let folder_filter = match folder {
        Some(f) => {
            if f.as_str().unicode_len() > 0 {
                Some(f)
            } else {
                None
            }
        },
        None => None,
    };
    SearchFilters { text, tags: tag_list, folder: folder_filter, date_from, date_to }
}

/// The tags of a comma-separated tag parameter: each piece trimmed, empty pieces dropped;
/// `None` where no tag is left.
pub open spec fn tag_list_spec(t: Seq<char>) -> Seq<Seq<char>> {
    split_on(t, ',').map_values(|p: Seq<char>| trim_ws(p)).filter(|p: Seq<char>| p.len() > 0)
}

/// Parses a comma-separated tag parameter (see `tag_list_spec`).
pub fn parse_tag_list(t: &str) -> (r: Option<Vec<String>>)
    ensures
        r is None <==> tag_list_spec(t@).len() == 0,
        r matches Some(v) ==> views(v@) == tag_list_spec(t@),
{
    let chars = str_to_chars(t);
    let parts = split_chars(&chars, ',');
    let ghost trimmed = split_on(t@, ',').map_values(|p: Seq<char>| trim_ws(p));
    let mut out: Vec<String> = Vec::new();
    let mut i: usize = 0;
    assert(trimmed.take(0).filter(|p: Seq<char>| p.len() > 0) =~= Seq::<Seq<char>>::empty());
    while i < parts.len()
        invariant
            i <= parts@.len(),
            views(parts@) == split_on(t@, ','),
            trimmed == split_on(t@, ',').map_values(|p: Seq<char>| trim_ws(p)),
            views(out@) == trimmed.take(i as int).filter(|p: Seq<char>| p.len() > 0),
        decreases parts@.len() - i,
    {
        let pv = str_to_chars(parts[i].as_str());
        let piece = trimmed_string(&pv, 0, pv.len());
        proof {
            assert(pv@.subrange(0, pv@.len() as int) =~= pv@);
            assert(parts@[i as int]@ == split_on(t@, ',')[i as int]);
            assert(piece@ == trimmed[i as int]);
            assert(trimmed.take(i + 1) =~= trimmed.take(i as int).push(trimmed[i as int]));
            trimmed.take(i as int).lemma_filter_push(trimmed[i as int], |p: Seq<char>| p.len() > 0);
        }
        let ghost before = views(out@);
        if piece.as_str().unicode_len() > 0 {
            out.push(piece);
            assert(views(out@) =~= before.push(trimmed[i as int]));
        }
        i += 1;
    }
    assert(trimmed.take(parts@.len() as int) =~= trimmed);
    if out.len() == 0 {
        None
    } else {
        Some(out)
    }
}

} // verus!
