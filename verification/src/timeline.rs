//! The timeline: each note with its date, taken from the frontmatter where it gives one
//! and from the modification time otherwise, latest date first.
use vstd::prelude::*;
use crate::config::views;
use crate::domain::{Frontmatter, Note};
use crate::graph::{mtime_secs, note_mtime_secs};
use crate::indexer::note_values;
use crate::clock::{utc_date, utc_date_spec, MAX_DATE_SECS};
use crate::keyed::StrKeyMap;
use crate::offline::char_width;
use crate::order::{lemma_lt_total, lemma_lt_transitive, seq_le, seq_lt, str_lt};
use crate::search::is_permutation;
use crate::tags::{mapping_get, mapping_lookup};
use crate::text::{str_to_chars, utf8_len};

verus! {

// ─── Dates from the frontmatter ─────────────────────────────────────────────

/// The text of a YAML string value, tagged or not.
pub open spec fn yaml_text(v: Frontmatter) -> Option<Seq<char>> {
    match v {
        Frontmatter::Str(s) => Some(s@),
        Frontmatter::Tagged(_, inner) => match *inner {
            Frontmatter::Str(s) => Some(s@),
            _ => None,
        },
        _ => None,
    }
}

/// The number of bytes a date is cut to: the text's UTF-8 length, at most 10.
pub open spec fn cut_len(s: Seq<char>) -> nat {
    if utf8_len(s) < 10 {
        utf8_len(s)
    } else {
        10
    }
}

/// The text of `field` in the frontmatter when it is a string whose cut is at least
/// seven bytes long (a string too short is passed over).
pub open spec fn date_field(fm: Frontmatter, field: Seq<char>) -> Option<Seq<char>> {
    match fm {
        Frontmatter::Mapping(entries) => match mapping_get(entries@, field) {
            Some(v) => match yaml_text(v) {
                Some(s) => if cut_len(s) >= 7 {
                    Some(s)
                } else {
                    None
                },
                None => None,
            },
            None => None,
        },
        _ => None,
    }
}

/// The frontmatter date text used, from `date`, `created` or `created_at`, the first
/// that gives one.
pub open spec fn chosen_date(fm: Frontmatter) -> Option<Seq<char>> {
    match date_field(fm, "date"@) {
        Some(s) => Some(s),
        None => match date_field(fm, "created"@) {
            Some(s) => Some(s),
            None => date_field(fm, "created_at"@),
        },
    }
}

/// The number of leading characters of `s`, from position `k` on, whose UTF-8 encoding
/// fits in `n` bytes.
pub open spec fn chars_within(s: Seq<char>, n: nat, k: int) -> int
    decreases s.len() - k,
{
    if 0 <= k < s.len() && utf8_len(s.take(k + 1)) <= n {
        chars_within(s, n, k + 1)
    } else {
        k
    }
}

/// The first `cut_len(s)` bytes of `s` end at a character boundary, so that slicing
/// there does not panic.
pub open spec fn cut_ok(s: Seq<char>) -> bool {
    utf8_len(s.take(chars_within(s, cut_len(s), 0))) == cut_len(s)
}

/// `/` replaced by `-`.
pub open spec fn dashed(s: Seq<char>) -> Seq<char> {
    s.map_values(|c: char| if c == '/' { '-' } else { c })
}

/// The date shown for a note: the cut frontmatter date with `/` turned into `-`, or the
/// UTC date of its modification time.
pub open spec fn note_date_text(n: Note) -> Seq<char> {
    match chosen_date(n.frontmatter) {
        Some(s) => dashed(s.take(chars_within(s, cut_len(s), 0))),
        None => utc_date_spec((n.mtime / 1_000_000_000) as int),
    }
}

/// The inputs the date of a note is defined on: a frontmatter date cut at a character
/// boundary, or a modification time that `chrono` can date.
pub open spec fn date_defined(n: Note) -> bool {
    match chosen_date(n.frontmatter) {
        Some(s) => cut_ok(s),
        None => n.mtime / 1_000_000_000 <= MAX_DATE_SECS,
    }
}

/// A prefix takes no more UTF-8 bytes than the whole.
proof fn lemma_utf8_len_prefix(s: Seq<char>, k: int)
    requires
        0 <= k <= s.len(),
    ensures
        utf8_len(s.take(k)) <= utf8_len(s),
    decreases s.len() - k,
{
    if k < s.len() {
        lemma_utf8_len_prefix(s, k + 1);
        assert(s.take(k + 1).drop_last() =~= s.take(k));
    } else {
        assert(s.take(k) =~= s);
    }
}

/// The cut length of `v`'s text.
fn cut_length(v: &Vec<char>) -> (n: usize)
    ensures
        n == cut_len(v@),
{
    let mut total: usize = 0;
    let mut i: usize = 0;
    while i < v.len() && total < 10
        invariant
            i <= v@.len(),
            total == utf8_len(v@.take(i as int)),
            total < 14,
        decreases v@.len() - i,
    {
        assert(v@.take(i + 1).drop_last() =~= v@.take(i as int));
        total += char_width(v[i]);
        i += 1;
    }
    proof {
        lemma_utf8_len_prefix(v@, i as int);
        if i == v@.len() {
            assert(v@.take(i as int) =~= v@);
        }
    }
    if total < 10 {
        total
    } else {
        10
    }
}

/// The date text of a frontmatter value, when it is a string cut to at least seven bytes.
fn field_text(fm: &Frontmatter, field: &str) -> (r: Option<Vec<char>>)
    ensures
        match date_field(*fm, field@) {
            Some(s) => r matches Some(v) && v@ == s,
            None => r is None,
        },
{
    match fm {
        Frontmatter::Mapping(entries) => match mapping_lookup(entries, field) {
            Some(v) => {
                let text: Option<&String> = match v {
                    Frontmatter::Str(s) => Some(s),
                    Frontmatter::Tagged(_, inner) => match &**inner {
                        Frontmatter::Str(s) => Some(s),
                        _ => None,
                    },
                    _ => None,
                };
                match text {
                    Some(s) => {
                        let chars = str_to_chars(s.as_str());
                        if cut_length(&chars) >= 7 {
                            Some(chars)
                        } else {
                            None
                        }
                    },
                    None => None,
                }
            },
            None => None,
        },
        _ => None,
    }
}

/// The date shown for a note (see `note_date_text`).
pub fn note_date_str(note: &Note) -> (r: String)
    requires
        date_defined(*note),
    ensures
        r@ == note_date_text(*note),
{
    let chosen = match field_text(&note.frontmatter, "date") {
        Some(v) => Some(v),
        None => match field_text(&note.frontmatter, "created") {
            Some(v) => Some(v),
            None => field_text(&note.frontmatter, "created_at"),
        },
    };
    match chosen {
        Some(v) => {
            let n = cut_length(&v);
            let mut k: usize = 0;
            let mut w: usize = 0;
            while k < v.len() && w + char_width(v[k]) <= n
                invariant
                    n == cut_len(v@),
                    n <= 10,
                    k <= v@.len(),
                    w == utf8_len(v@.take(k as int)),
                    w <= n,
                    chars_within(v@, n as nat, 0) == chars_within(v@, n as nat, k as int),
                decreases v@.len() - k,
            {
                assert(v@.take(k + 1).drop_last() =~= v@.take(k as int));
                w += char_width(v[k]);
                k += 1;
            }
            proof {
                if k < v@.len() {
                    assert(v@.take(k + 1).drop_last() =~= v@.take(k as int));
                }
            }
            let mut r = String::new();
            let mut i: usize = 0;
            while i < k
                invariant
                    k <= v@.len(),
                    i <= k,
                    r@ == dashed(v@.take(k as int).take(i as int)),
                decreases k - i,
            {
                let c = v[i];
                r.push(if c == '/' { '-' } else { c });
                i += 1;
                assert(r@ =~= dashed(v@.take(k as int).take(i as int)));
            }
            assert(v@.take(k as int).take(k as int) =~= v@.take(k as int));
            r
        },
        None => {
            let secs: u64 = (note.mtime / 1_000_000_000) as u64;
            utc_date(secs)
        },
    }
}

// ─── The timeline ────────────────────────────────────────────────────────────

/// An entry of the timeline.
pub struct TimelineItem {
    pub title: String,
    pub path: String,
    /// `YYYY-MM-DD` (see `note_date_text`).
    pub date: String,
    pub tags: Vec<String>,
    /// Modification time in seconds since the epoch.
    pub mtime: i64,
}

/// The timeline entry of a note.
pub open spec fn item_ok(t: TimelineItem, n: Note) -> bool {
    &&& t.title@ == n.title@
    &&& t.path@ == n.path@
    &&& t.date@ == note_date_text(n)
    &&& t.tags@ == n.tags@
    &&& t.mtime == mtime_secs(n.mtime)
}

/// `order` lists the keys in descending text order, equal keys in input order.
pub open spec fn descending_text(order: Seq<usize>, keys: Seq<Seq<char>>) -> bool {
    forall|a: int, b: int|
        #![trigger order[a], order[b]]
        0 <= a < b < order.len() ==> seq_lt(keys[order[b] as int], keys[order[a] as int]) || (keys[order[a] as int]
            == keys[order[b] as int] && order[a] < order[b])
}

/// The positions of `keys` in descending text order, equal keys in input order: the
/// order in which a stable sort from largest to smallest leaves them.
pub fn order_by_text_desc(keys: &Vec<String>) -> (r: Vec<usize>)
    ensures
        is_permutation(r@, keys@.len()),
        descending_text(r@, views(keys@)),
{
    let ghost ks = views(keys@);
    let n = keys.len();
    let mut out: Vec<usize> = Vec::new();
    let mut i: usize = 0;
    while i < n
        invariant
            n == keys@.len(),
            ks == views(keys@),
            i <= n,
            out@.len() == i,
            forall|k: int| 0 <= k < i ==> #[trigger] out@[k] < i,
            forall|a: int, b: int| 0 <= a < b < i ==> out@[a] != out@[b],
            descending_text(out@, ks),
        decreases n - i,
    {
        let mut p = out.len();
        while p > 0 && str_lt(keys[out[p - 1]].as_str(), keys[i].as_str())
            invariant
                n == keys@.len(),
                ks == views(keys@),
                i < n,
                out@.len() == i,
                p <= i,
                forall|k: int| 0 <= k < i ==> #[trigger] out@[k] < i,
                forall|q: int| p <= q < i ==> seq_lt(ks[#[trigger] out@[q] as int], ks[i as int]),
            decreases p,
        {
            assert(ks[out@[p - 1] as int] == keys@[out@[p - 1] as int]@);
            p -= 1;
        }
        let ghost old_out = out@;
        proof {
            if p > 0 {
                let last = p - 1;
                assert(ks[old_out[last] as int] == keys@[old_out[last] as int]@);
                lemma_lt_total(ks[old_out[last] as int], ks[i as int]);
            }
        }
        out.insert(p, i);
        proof {
            assert forall|a: int, b: int| 0 <= a < b < out@.len() implies seq_lt(ks[out@[b] as int], ks[out@[a] as int])
                || (ks[out@[a] as int] == ks[out@[b] as int] && out@[a] < out@[b]) by {
                if b < p {
                    assert(out@[a] == old_out[a] && out@[b] == old_out[b]);
                } else if b == p {
                    assert(out@[a] == old_out[a]);
                    let last = p - 1;
                    let kl = ks[old_out[last] as int];
                    assert(seq_le(ks[i as int], kl));
                    assert(old_out[a] < i);
                    if a < last {
                        let ka = ks[old_out[a] as int];
                        assert(seq_lt(kl, ka) || (ka == kl && old_out[a] < old_out[last as int]));
                        if seq_lt(kl, ka) && kl != ks[i as int] {
                            lemma_lt_transitive(ks[i as int], kl, ka);
                        }
                    }
                } else if a == p {
                    assert(out@[b] == old_out[b - 1]);
                } else if a < p {
                    assert(out@[a] == old_out[a] && out@[b] == old_out[b - 1]);
                    let last = p - 1;
                    let kl = ks[old_out[last] as int];
                    let ka = ks[old_out[a] as int];
                    let kb = ks[old_out[b - 1] as int];
                    assert(seq_le(ks[i as int], kl));
                    assert(seq_lt(kb, ks[i as int]));
                    if a < last {
                        assert(seq_lt(kl, ka) || (ka == kl && old_out[a] < old_out[last as int]));
                    }
                    assert(seq_le(ks[i as int], ka)) by {
                        if a < last && seq_lt(kl, ka) && kl != ks[i as int] {
                            lemma_lt_transitive(ks[i as int], kl, ka);
                        }
                    }
                    if ka != ks[i as int] {
                        lemma_lt_transitive(kb, ks[i as int], ka);
                    }
                } else {
                    assert(out@[a] == old_out[a - 1] && out@[b] == old_out[b - 1]);
                }
            }
            assert forall|k: int| 0 <= k < i + 1 implies #[trigger] out@[k] < i + 1 by {
                if k < p {
                    assert(out@[k] == old_out[k]);
                } else if k > p {
                    assert(out@[k] == old_out[k - 1]);
                }
            }
            assert forall|a: int, b: int| 0 <= a < b < i + 1 implies out@[a] != out@[b] by {
                if b < p {
                    assert(out@[a] == old_out[a] && out@[b] == old_out[b]);
                } else if b == p {
                    assert(out@[a] == old_out[a]);
                } else if a == p {
                    assert(out@[b] == old_out[b - 1]);
                } else if a < p {
                    assert(out@[a] == old_out[a] && out@[b] == old_out[b - 1]);
                } else {
                    assert(out@[a] == old_out[a - 1] && out@[b] == old_out[b - 1]);
                }
            }
        }
        i += 1;
    }
    out
}

/// The timeline of `notes`: one entry per note, latest date first, notes with equal dates
/// in note order.
pub fn timeline(notes: &StrKeyMap<Note>) -> (r: Vec<TimelineItem>)
    requires
        forall|i: int| 0 <= i < note_values(*notes).len() ==> date_defined(#[trigger] note_values(*notes)[i]),
    ensures
        ({
            let ns = note_values(*notes);
            let dates = ns.map_values(|n: Note| note_date_text(n));
            exists|ord: Seq<usize>|
                #[trigger] is_permutation(ord, ns.len()) && descending_text(ord, dates) && r@.len() == ns.len()
                    && forall|k: int| 0 <= k < r@.len() ==> item_ok(#[trigger] r@[k], ns[ord[k] as int])
        }),
{
    let ghost ns = note_values(*notes);
    let n = notes.len();
    let mut dates: Vec<String> = Vec::new();
    let mut i: usize = 0;
    while i < n
        invariant
            n == notes.entries().len(),
            ns == note_values(*notes),
            forall|j: int| 0 <= j < ns.len() ==> date_defined(#[trigger] ns[j]),
            i <= n,
            dates@.len() == i,
            forall|k: int| 0 <= k < i ==> #[trigger] dates@[k]@ == note_date_text(ns[k]),
        decreases n - i,
    {
        let note = notes.value_at(i);
        assert(ns[i as int] == *note);
        dates.push(note_date_str(note));
        i += 1;
    }
    let ghost dv = ns.map_values(|n: Note| note_date_text(n));
    assert(views(dates@) =~= dv);
    let ord = order_by_text_desc(&dates);
    let mut r: Vec<TimelineItem> = Vec::new();
    let mut k: usize = 0;
    while k < n
        invariant
            n == notes.entries().len(),
            ns == note_values(*notes),
            is_permutation(ord@, n as nat),
            dates@.len() == n,
            forall|k: int| 0 <= k < n ==> #[trigger] dates@[k]@ == note_date_text(ns[k]),
            k <= n,
            r@.len() == k,
            forall|j: int| 0 <= j < k ==> item_ok(#[trigger] r@[j], ns[ord@[j] as int]),
        decreases n - k,
    {
        let j = ord[k];
        assert(ord@[k as int] < n);
        let note = notes.value_at(j);
        assert(ns[j as int] == *note);
        let item = TimelineItem {
            title: note.title.clone(),
            path: note.path.clone(),
            date: dates[j].clone(),
            tags: crate::config::clone_strings(&note.tags),
            mtime: note_mtime_secs(note),
        };
        r.push(item);
        k += 1;
    }
    r
}


/// The text of the frontmatter date a note's date is taken from (see `chosen_date`).
fn chosen_text(fm: &Frontmatter) -> (r: Option<Vec<char>>)
    ensures
        match chosen_date(*fm) {
            Some(s) => r matches Some(v) && v@ == s,
            None => r is None,
        },
{
    match field_text(fm, "date") {
        Some(v) => Some(v),
        None => match field_text(fm, "created") {
            Some(v) => Some(v),
            None => field_text(fm, "created_at"),
        },
    }
}

/// Whether the date of a note is defined (see `date_defined`).
pub fn date_is_defined(note: &Note) -> (r: bool)
    ensures
        r == date_defined(*note),
{
    match chosen_text(&note.frontmatter) {
        Some(v) => {
            let n = cut_length(&v);
            let mut k: usize = 0;
            let mut w: usize = 0;
            while k < v.len() && w + char_width(v[k]) <= n
                invariant
                    n == cut_len(v@),
                    n <= 10,
                    k <= v@.len(),
                    w == utf8_len(v@.take(k as int)),
                    w <= n,
                    chars_within(v@, n as nat, 0) == chars_within(v@, n as nat, k as int),
                decreases v@.len() - k,
            {
                assert(v@.take(k + 1).drop_last() =~= v@.take(k as int));
                w += char_width(v[k]);
                k += 1;
            }
            proof {
                if k < v@.len() {
                    assert(v@.take(k + 1).drop_last() =~= v@.take(k as int));
                }
            }
            w == n
        },
        None => note.mtime / 1_000_000_000 <= MAX_DATE_SECS,
    }
}

/// The timeline where the date of every note is defined (see `timeline`); `None` where
/// some note's date is not.
pub fn timeline_checked(notes: &StrKeyMap<Note>) -> (r: Option<Vec<TimelineItem>>)
    ensures
        r is None <==> exists|i: int| 0 <= i < note_values(*notes).len() && !date_defined(#[trigger] note_values(*notes)[i]),
        r matches Some(v) ==> ({
            let ns = note_values(*notes);
            let dates = ns.map_values(|n: Note| note_date_text(n));
            exists|ord: Seq<usize>|
                #[trigger] is_permutation(ord, ns.len()) && descending_text(ord, dates) && v@.len() == ns.len()
                    && forall|k: int| 0 <= k < v@.len() ==> item_ok(#[trigger] v@[k], ns[ord[k] as int])
        }),
{
    let ghost ns = note_values(*notes);
    let n = notes.len();
    let mut i: usize = 0;
    while i < n
        invariant
            n == notes.entries().len(),
            ns == note_values(*notes),
            i <= n,
            forall|j: int| 0 <= j < i ==> date_defined(#[trigger] ns[j]),
        decreases n - i,
    {
        let note = notes.value_at(i);
        assert(ns[i as int] == *note);
        if !date_is_defined(note) {
            return None;
        }
        i += 1;
    }
    Some(timeline(notes))
}

} // verus!
