//! The Atom feed of the latest notes.
use vstd::prelude::*;
use crate::clock::{utc_stamp, utc_stamp_spec, MAX_DATE_SECS};
use crate::config::views;
use crate::domain::Note;
use crate::handlers::xml_escape;
use crate::indexer::note_values;
use crate::keyed::{contains_string, StrKeyMap};
use crate::markdown::{pct_encode, percent_encode};
use crate::search::{is_permutation, newest_first, order_newest_first};
use crate::text::{
    chars_to_string_range, html_escape_spec, push_str, seq_starts_with, starts_with, str_eq, str_to_chars,
    trim_char_end,
};

verus! {

/// The number of entries a feed holds at most.
pub const FEED_LIMIT: usize = 50;

/// A note belongs in the feed: it carries the tag asked for, if any, and lies in the
/// folder asked for, if any (its path starts with the folder, trailing `/` trimmed, and a
/// `/`, or is the folder itself).
pub open spec fn in_feed(n: Note, tag: Option<Seq<char>>, folder: Option<Seq<char>>) -> bool {
    &&& match tag {
        Some(t) => views(n.tags@).contains(t),
        None => true,
    }
    &&& match folder {
        Some(f) => seq_starts_with(n.path@, trim_char_end(f, '/') + seq!['/']) || n.path@ == f,
        None => true,
    }
}

/// The notes of `ns` that belong in the feed, in order.
pub open spec fn feed_candidates(ns: Seq<Note>, tag: Option<Seq<char>>, folder: Option<Seq<char>>) -> Seq<Note>
    decreases ns.len(),
{
    if ns.len() == 0 {
        Seq::empty()
    } else {
        feed_candidates(ns.drop_last(), tag, folder) + if in_feed(ns.last(), tag, folder) {
            seq![ns.last()]
        } else {
            Seq::empty()
        }
    }
}

/// The base of the feed's links: the public base address, or `http://localhost:8080`,
/// without trailing `/`.
pub open spec fn feed_base(public_base: Option<Seq<char>>) -> Seq<char> {
    trim_char_end(
        match public_base {
            Some(b) => b,
            None => "http://localhost:8080"@,
        },
        '/',
    )
}

/// The address of a note's page.
pub open spec fn note_link(base: Seq<char>, n: Note) -> Seq<char> {
    base + "/doc/"@ + pct_encode(n.path@)
}

/// The seconds of a modification time.
pub open spec fn secs_of(nanos: u128) -> int {
    (nanos / 1_000_000_000) as int
}

/// The `<entry>` of a note.
pub open spec fn feed_entry(base: Seq<char>, n: Note) -> Seq<char> {
    "  <entry>\n    <title>"@ + html_escape_spec(n.title@) + "</title>\n    <link href=\""@ + note_link(base, n)
        + "\"/>\n    <id>"@ + note_link(base, n) + "</id>\n    <updated>"@ + utc_stamp_spec(secs_of(n.mtime))
        + "</updated>\n    <content type=\"html\"><![CDATA["@ + n.content_html@ + "]]></content>\n  </entry>\n"@
}

/// The entries of the notes `ns`, in order.
pub open spec fn feed_entries(base: Seq<char>, ns: Seq<Note>) -> Seq<char>
    decreases ns.len(),
{
    if ns.len() == 0 {
        Seq::empty()
    } else {
        feed_entries(base, ns.drop_last()) + feed_entry(base, ns.last())
    }
}

/// The head of the feed, updated at second `now`.
pub open spec fn feed_head(base: Seq<char>, now: int) -> Seq<char> {
    "<?xml version=\"1.0\" encoding=\"UTF-8\"?>\n<feed xmlns=\"http://www.w3.org/2005/Atom\">\n  <title>Obsidian Mirror</title>\n  <link href=\""@
        + base + "/\" rel=\"alternate\"/>\n  <link href=\""@ + base + "/feed.xml\" rel=\"self\"/>\n  <updated>"@
        + utc_stamp_spec(now) + "</updated>\n  <id>"@ + base + "/</id>\n"@
}

/// Every note that belongs in the feed has a modification time that chrono can date.
pub open spec fn feed_dates_ok(ns: Seq<Note>, tag: Option<Seq<char>>, folder: Option<Seq<char>>) -> bool {
    forall|i: int|
        0 <= i < feed_candidates(ns, tag, folder).len() ==> secs_of(
            #[trigger] feed_candidates(ns, tag, folder)[i].mtime,
        ) <= MAX_DATE_SECS
}

/// The feed `r` holds: the head, then the entries of the notes that belong in it, most
/// recently modified first (ties in note order), at most `FEED_LIMIT` of them, then the
/// closing tag.
pub open spec fn feed_ok(
    r: Seq<char>,
    ns: Seq<Note>,
    public_base: Option<Seq<char>>,
    tag: Option<Seq<char>>,
    folder: Option<Seq<char>>,
    now: int,
) -> bool {
    let c = feed_candidates(ns, tag, folder);
    let base = feed_base(public_base);
    exists|ord: Seq<usize>|
        #[trigger] is_permutation(ord, c.len()) && newest_first(ord, c.map_values(|n: Note| n.mtime as int))
            && r == feed_head(base, now) + feed_entries(
            base,
            ord.take(if c.len() < FEED_LIMIT { c.len() as int } else { FEED_LIMIT as int }).map_values(
                |i: usize| c[i as int],
            ),
        ) + "</feed>\n"@
}

/// An optional string slice as an optional text.
pub open spec fn opt_text(o: Option<&str>) -> Option<Seq<char>> {
    match o {
        Some(s) => Some(s@),
        None => None,
    }
}

/// `s` without trailing `/`.
fn trim_slashes(s: &str) -> (r: String)
    ensures
        r@ == trim_char_end(s@, '/'),
{
    let v = str_to_chars(s);
    let mut k = v.len();
    assert(v@.take(v@.len() as int) =~= v@);
    while k > 0 && v[k - 1] == '/'
        invariant
            k <= v@.len(),
            trim_char_end(v@, '/') == trim_char_end(v@.take(k as int), '/'),
        decreases k,
    {
        assert(v@.take(k as int).drop_last() =~= v@.take(k - 1));
        k -= 1;
    }
    let r = chars_to_string_range(&v, 0, k);
    assert(v@.subrange(0, k as int) =~= v@.take(k as int));
    r
}

/// Whether a note belongs in the feed (see `in_feed`).
fn note_in_feed(n: &Note, tag: Option<&str>, folder: Option<&str>) -> (r: bool)
    ensures
        r == in_feed(*n, opt_text(tag), opt_text(folder)),
{
    let tag_ok = match tag {
        Some(t) => {
            let ts = t.to_string();
            assert(ts@ == t@);
            assert(n.tags@.map_values(|x: String| x@) =~= views(n.tags@));
            contains_string(&n.tags, &ts)
        },
        None => true,
    };
    assert(tag_ok == match opt_text(tag) {
        Some(t) => views(n.tags@).contains(t),
        None => true,
    });
    let folder_ok = match folder {
        Some(f) => {
            let mut prefix = trim_slashes(f);
            prefix.push('/');
            assert(prefix@ == trim_char_end(f@, '/') + seq!['/']);
            let pv = str_to_chars(prefix.as_str());
            let nv = str_to_chars(n.path.as_str());
            let sw = starts_with(&nv, &pv);
            let eq = str_eq(n.path.as_str(), f);
            sw || eq
        },
        None => true,
    };
    assert(folder_ok == match opt_text(folder) {
        Some(f) => seq_starts_with(n.path@, trim_char_end(f, '/') + seq!['/']) || n.path@ == f,
        None => true,
    });
    tag_ok && folder_ok
}

/// Appends the entry of a note (see `feed_entry`).
fn push_entry(out: &mut String, base: &String, n: &Note)
    requires
        secs_of(n.mtime) <= MAX_DATE_SECS,
    ensures
        final(out)@ == old(out)@ + feed_entry(base@, *n),
{
    let mut link = base.clone();
    push_str(&mut link, "/doc/");
    push_str(&mut link, percent_encode(n.path.as_str()).as_str());
    let secs: u64 = (n.mtime / 1_000_000_000) as u64;
    let ghost start = out@;
    push_str(out, "  <entry>\n    <title>");
    push_str(out, xml_escape(n.title.as_str()).as_str());
    push_str(out, "</title>\n    <link href=\"");
    push_str(out, link.as_str());
    push_str(out, "\"/>\n    <id>");
    push_str(out, link.as_str());
    push_str(out, "</id>\n    <updated>");
    push_str(out, utc_stamp(secs).as_str());
    push_str(out, "</updated>\n    <content type=\"html\"><![CDATA[");
    push_str(out, n.content_html.as_str());
    push_str(out, "]]></content>\n  </entry>\n");
    assert(out@ =~= start + feed_entry(base@, *n));
}

/// The Atom feed of the notes (see `feed_ok`), updated at second `now_secs`.
pub fn feed_xml(
    notes: &StrKeyMap<Note>,
    public_base: Option<&str>,
    tag: Option<&str>,
    folder: Option<&str>,
    now_secs: u64,
) -> (r: String)
    requires
        now_secs <= MAX_DATE_SECS,
        feed_dates_ok(note_values(*notes), opt_text(tag), opt_text(folder)),
    ensures
        feed_ok(r@, note_values(*notes), opt_text(public_base), opt_text(tag), opt_text(folder), now_secs as int),
{
    let ghost ns = note_values(*notes);
    let ghost tg = opt_text(tag);
    let ghost fd = opt_text(folder);
    let base = match public_base {
        Some(b) => trim_slashes(b),
        None => trim_slashes("http://localhost:8080"),
    };
    let n = notes.len();
    let mut picked: Vec<usize> = Vec::new();
    let mut keys: Vec<u128> = Vec::new();
    let mut i: usize = 0;
    while i < n
        invariant
            n == notes.entries().len(),
            ns == note_values(*notes),
            tg == opt_text(tag),
            fd == opt_text(folder),
            i <= n,
            picked@.len() == keys@.len(),
            forall|k: int| 0 <= k < picked@.len() ==> #[trigger] picked@[k] < n,
            picked@.map_values(|j: usize| ns[j as int]) == feed_candidates(ns.take(i as int), tg, fd),
            forall|k: int| 0 <= k < keys@.len() ==> #[trigger] keys@[k] == ns[picked@[k] as int].mtime,
        decreases n - i,
    {
        let note = notes.value_at(i);
        assert(ns[i as int] == *note);
        assert(ns.take(i + 1).drop_last() =~= ns.take(i as int));
        assert(ns.take(i + 1).last() == *note);
        let ghost before = picked@.map_values(|j: usize| ns[j as int]);
        assert(feed_candidates(ns.take(i + 1), tg, fd) == feed_candidates(ns.take(i as int), tg, fd) + if in_feed(
            *note,
            tg,
            fd,
        ) {
            seq![*note]
        } else {
            Seq::empty()
        });
        if note_in_feed(note, tag, folder) {
            picked.push(i);
            keys.push(note.mtime);
            assert(picked@.map_values(|j: usize| ns[j as int]) =~= before.push(*note));
            assert(before.push(*note) =~= feed_candidates(ns.take(i as int), tg, fd) + seq![*note]);
        } else {
            assert(picked@.map_values(|j: usize| ns[j as int]) =~= before);
            assert(before =~= feed_candidates(ns.take(i as int), tg, fd) + Seq::<Note>::empty());
        }
        i += 1;
    }
    assert(ns.take(n as int) =~= ns);
    let ghost c = feed_candidates(ns, tg, fd);
    assert(keys@.map_values(|k: u128| k as int) =~= c.map_values(|n: Note| n.mtime as int));
    let ord = order_newest_first(&keys);
    let count: usize = if picked.len() < FEED_LIMIT {
        picked.len()
    } else {
        FEED_LIMIT
    };
    let mut out = String::new();
    push_str(&mut out, "<?xml version=\"1.0\" encoding=\"UTF-8\"?>\n<feed xmlns=\"http://www.w3.org/2005/Atom\">\n  <title>Obsidian Mirror</title>\n  <link href=\"");
    push_str(&mut out, base.as_str());
    push_str(&mut out, "/\" rel=\"alternate\"/>\n  <link href=\"");
    push_str(&mut out, base.as_str());
    push_str(&mut out, "/feed.xml\" rel=\"self\"/>\n  <updated>");
    push_str(&mut out, utc_stamp(now_secs).as_str());
    push_str(&mut out, "</updated>\n  <id>");
    push_str(&mut out, base.as_str());
    push_str(&mut out, "/</id>\n");
    let ghost head = out@;
    assert(head =~= feed_head(base@, now_secs as int));
    let mut k: usize = 0;
    while k < count
        invariant
            ns == note_values(*notes),
            c == feed_candidates(ns, tg, fd),
            feed_dates_ok(ns, tg, fd),
            picked@.map_values(|j: usize| ns[j as int]) == c,
            forall|q: int| 0 <= q < picked@.len() ==> #[trigger] picked@[q] < ns.len(),
            is_permutation(ord@, picked@.len()),
            count <= picked@.len(),
            k <= count,
            out@ == head + feed_entries(base@, ord@.take(k as int).map_values(|j: usize| c[j as int])),
        decreases count - k,
    {
        let j = ord[k];
        assert(ord@[k as int] < picked@.len());
        let p = picked[j];
        let note = notes.value_at(p);
        assert(ns[p as int] == *note);
        assert(c[j as int] == *note);
        assert(secs_of(c[j as int].mtime) <= MAX_DATE_SECS);
        let ghost before = out@;
        push_entry(&mut out, &base, note);
        proof {
            let prev = ord@.take(k as int).map_values(|x: usize| c[x as int]);
            let next = ord@.take(k + 1).map_values(|x: usize| c[x as int]);
            assert(next =~= prev.push(*note));
            assert(next.drop_last() =~= prev);
        }
        k += 1;
    }
    push_str(&mut out, "</feed>\n");
    proof {
        assert(is_permutation(ord@, c.len()));
    }
    out
}

/// Whether every note that belongs in the feed can be dated (see `feed_dates_ok`).
fn feed_dates_check(notes: &StrKeyMap<Note>, tag: Option<&str>, folder: Option<&str>) -> (r: bool)
    ensures
        r == feed_dates_ok(note_values(*notes), opt_text(tag), opt_text(folder)),
{
    let ghost ns = note_values(*notes);
    let ghost tg = opt_text(tag);
    let ghost fd = opt_text(folder);
    let n = notes.len();
    let mut i: usize = 0;
    while i < n
        invariant
            n == notes.entries().len(),
            ns == note_values(*notes),
            tg == opt_text(tag),
            fd == opt_text(folder),
            i <= n,
            feed_dates_ok(ns.take(i as int), tg, fd),
        decreases n - i,
    {
        let note = notes.value_at(i);
        assert(ns[i as int] == *note);
        assert(ns.take(i + 1).drop_last() =~= ns.take(i as int));
        assert(ns.take(i + 1).last() == *note);
        let inside = note_in_feed(note, tag, folder);
        assert(feed_candidates(ns.take(i + 1), tg, fd) == feed_candidates(ns.take(i as int), tg, fd) + if in_feed(
            *note,
            tg,
            fd,
        ) {
            seq![*note]
        } else {
            Seq::empty()
        });
        if inside && note.mtime / 1_000_000_000 > MAX_DATE_SECS {
            proof {
                let c = feed_candidates(ns.take(i + 1), tg, fd);
                let prev = feed_candidates(ns.take(i as int), tg, fd);
                assert(c =~= prev.push(*note));
                assert(c[c.len() - 1] == *note);
                assert(!feed_dates_ok(ns.take(i + 1), tg, fd));
                lemma_candidates_prefix(ns, tg, fd, i + 1);
                assert(feed_candidates(ns, tg, fd)[c.len() - 1] == *note);
            }
            return false;
        }
        proof {
            let prev = feed_candidates(ns.take(i as int), tg, fd);
            let c = feed_candidates(ns.take(i + 1), tg, fd);
            assert forall|q: int| 0 <= q < c.len() implies secs_of(#[trigger] c[q].mtime) <= MAX_DATE_SECS by {
                if q < prev.len() {
                    assert(c[q] == prev[q]);
                } else {
                    assert(c[q] == *note);
                }
            }
        }
        i += 1;
    }
    assert(ns.take(n as int) =~= ns);
    true
}

/// The candidates of a prefix are a prefix of the candidates.
proof fn lemma_candidates_prefix(ns: Seq<Note>, tag: Option<Seq<char>>, folder: Option<Seq<char>>, k: int)
    requires
        0 <= k <= ns.len(),
    ensures
        feed_candidates(ns.take(k), tag, folder).len() <= feed_candidates(ns, tag, folder).len(),
        forall|q: int|
            0 <= q < feed_candidates(ns.take(k), tag, folder).len() ==> feed_candidates(ns, tag, folder)[q]
                == #[trigger] feed_candidates(ns.take(k), tag, folder)[q],
    decreases ns.len() - k,
{
    if k < ns.len() {
        lemma_candidates_prefix(ns, tag, folder, k + 1);
        assert(ns.take(k + 1).drop_last() =~= ns.take(k));
        let a = feed_candidates(ns.take(k), tag, folder);
        let b = feed_candidates(ns.take(k + 1), tag, folder);
        assert(b == a + if in_feed(ns.take(k + 1).last(), tag, folder) {
            seq![ns.take(k + 1).last()]
        } else {
            Seq::empty()
        });
        assert forall|q: int| 0 <= q < a.len() implies feed_candidates(ns, tag, folder)[q] == #[trigger] a[q] by {
            assert(b[q] == a[q]);
        }
    } else {
        assert(ns.take(k) =~= ns);
    }
}

/// The feed where every note in it can be dated (see `feed_xml`); `None` where some
/// cannot.
pub fn feed_xml_checked(
    notes: &StrKeyMap<Note>,
    public_base: Option<&str>,
    tag: Option<&str>,
    folder: Option<&str>,
    now_secs: u64,
) -> (r: Option<String>)
    requires
        now_secs <= MAX_DATE_SECS,
    ensures
        r is None <==> !feed_dates_ok(note_values(*notes), opt_text(tag), opt_text(folder)),
        r matches Some(x) ==> feed_ok(
            x@,
            note_values(*notes),
            opt_text(public_base),
            opt_text(tag),
            opt_text(folder),
            now_secs as int,
        ),
{
    if feed_dates_check(notes, tag, folder) {
        Some(feed_xml(notes, public_base, tag, folder, now_secs))
    } else {
        None
    }
}


/// The feed is drawn from exactly the notes that carry the tag and lie in the folder asked
/// for.
pub proof fn lemma_feed_candidates_exact(ns: Seq<Note>, tag: Option<Seq<char>>, folder: Option<Seq<char>>)
    ensures
        forall|n: Note| #[trigger]
            feed_candidates(ns, tag, folder).contains(n) <==> ns.contains(n) && in_feed(n, tag, folder),
    decreases ns.len(),
{
    if ns.len() > 0 {
        let prev = ns.drop_last();
        lemma_feed_candidates_exact(prev, tag, folder);
        let c = feed_candidates(prev, tag, folder);
        let full = feed_candidates(ns, tag, folder);
        assert(full == c + if in_feed(ns.last(), tag, folder) {
            seq![ns.last()]
        } else {
            Seq::empty()
        });
        assert forall|n: Note| full.contains(n) <==> ns.contains(n) && in_feed(n, tag, folder) by {
            if full.contains(n) {
                let k = choose|k: int| 0 <= k < full.len() && full[k] == n;
                if k < c.len() {
                    assert(c[k] == n);
                    assert(c.contains(n));
                    assert(prev.contains(n) && in_feed(n, tag, folder));
                    let i = choose|i: int| 0 <= i < prev.len() && prev[i] == n;
                    assert(ns[i] == n);
                } else {
                    assert(in_feed(ns.last(), tag, folder) && n == ns.last());
                    assert(ns[ns.len() - 1] == n);
                }
            }
            if ns.contains(n) && in_feed(n, tag, folder) {
                let i = choose|i: int| 0 <= i < ns.len() && ns[i] == n;
                if i < ns.len() - 1 {
                    assert(prev[i] == n);
                    assert(prev.contains(n));
                    assert(c.contains(n));
                    let k = choose|k: int| 0 <= k < c.len() && c[k] == n;
                    assert(full[k] == n);
                } else {
                    assert(n == ns.last());
                    assert(full[full.len() - 1] == n);
                }
            }
        }
    }
}

} // verus!
