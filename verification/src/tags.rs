//! Tags of a note: from the `tags` and `tag` fields of its frontmatter, and from
//! `#tag` words in its text.
use vstd::prelude::*;
use crate::config::views;
use crate::domain::Frontmatter;
use crate::text::{spec_is_word_char, is_word_char, str_eq, str_to_chars, trim_ws, trimmed_string};
use crate::keyed::contains_string;

verus! {

/// A character of a hashtag: a word character, a CJK ideograph of the basic block, `_`
/// or `-`.
pub open spec fn tag_char(c: char) -> bool {
    spec_is_word_char(c) || ('\u{4e00}' <= c && c <= '\u{9fa5}') || c == '_' || c == '-'
}

/// The end of the run of tag characters that starts at `a`.
pub open spec fn tag_run_end(s: Seq<char>, a: int) -> int
    decreases s.len() - a,
{
    if 0 <= a < s.len() && tag_char(s[a]) {
        tag_run_end(s, a + 1)
    } else {
        a
    }
}

/// The tag matched by `(?:^|[^#\w])#([\w\u4e00-\u9fa5_-]+)` at `st`, as the range of
/// its name.
pub open spec fn hashtag_at(s: Seq<char>, st: int) -> Option<(int, int)> {
    if st == 0 && s.len() > 1 && s[0] == '#' && tag_char(s[1]) {
        Some((1, tag_run_end(s, 1)))
    } else if 0 <= st && st + 2 < s.len() && !spec_is_word_char(s[st]) && s[st] != '#' && s[st + 1] == '#'
        && tag_char(s[st + 2]) {
        Some((st + 2, tag_run_end(s, st + 2)))
    } else {
        None
    }
}

/// The names of the hashtags found from position `i` on, each search resuming after the
/// previous tag.
pub open spec fn hashtags_from(s: Seq<char>, i: int) -> Seq<Seq<char>>
    decreases s.len() - i,
{
    if 0 <= i < s.len() {
        match hashtag_at(s, i) {
            Some((a, e)) => {
                proof {
                    lemma_tag_run_end(s, a);
                }
                seq![s.subrange(a, e)] + hashtags_from(s, e)
            },
            None => hashtags_from(s, i + 1),
        }
    } else {
        Seq::empty()
    }
}

/// A run of tag characters ends after its start and within the text.
pub proof fn lemma_tag_run_end(s: Seq<char>, a: int)
    ensures
        0 <= a <= s.len() ==> a <= tag_run_end(s, a) <= s.len(),
        0 <= a < s.len() && tag_char(s[a]) ==> a < tag_run_end(s, a),
        forall|j: int| a <= j < tag_run_end(s, a) ==> tag_char(#[trigger] s[j]),
    decreases s.len() - a,
{
    if 0 <= a < s.len() && tag_char(s[a]) {
        lemma_tag_run_end(s, a + 1);
    }
}

/// The tags that one frontmatter value holds: a string, or the strings of a sequence,
/// each trimmed.
pub open spec fn value_tags(v: Frontmatter) -> Seq<Seq<char>> {
    match v {
        Frontmatter::Str(t) => seq![trim_ws(t@)],
        Frontmatter::Sequence(items) => seq_str_tags(items@),
        _ => Seq::empty(),
    }
}

/// The trimmed strings among `items`, in order.
pub open spec fn seq_str_tags(items: Seq<Frontmatter>) -> Seq<Seq<char>>
    decreases items.len(),
{
    if items.len() == 0 {
        Seq::empty()
    } else {
        seq_str_tags(items.drop_last()) + match items.last() {
            Frontmatter::Str(t) => seq![trim_ws(t@)],
            _ => Seq::empty(),
        }
    }
}

/// The value of the first entry of `entries` whose key is the string `key`.
pub open spec fn mapping_get(entries: Seq<(Frontmatter, Frontmatter)>, key: Seq<char>) -> Option<Frontmatter>
    decreases entries.len(),
{
    if entries.len() == 0 {
        None
    } else {
        match entries[0].0 {
            Frontmatter::Str(k) if k@ == key => Some(entries[0].1),
            _ => mapping_get(entries.drop_first(), key),
        }
    }
}

/// The tags of a frontmatter: those under `tags`, then those under `tag`.
pub open spec fn frontmatter_tags(fm: Frontmatter) -> Seq<Seq<char>> {
    match fm {
        Frontmatter::Mapping(entries) => (match mapping_get(entries@, "tags"@) {
            Some(v) => value_tags(v),
            None => Seq::empty(),
        }) + (match mapping_get(entries@, "tag"@) {
            Some(v) => value_tags(v),
            None => Seq::empty(),
        }),
        _ => Seq::empty(),
    }
}

/// `tags` with each non-empty candidate appended unless it is already there.
pub open spec fn add_tags(tags: Seq<Seq<char>>, cands: Seq<Seq<char>>) -> Seq<Seq<char>>
    decreases cands.len(),
{
    if cands.len() == 0 {
        tags
    } else {
        let prev = add_tags(tags, cands.drop_last());
        let t = cands.last();
        if t.len() > 0 && !prev.contains(t) {
            prev.push(t)
        } else {
            prev
        }
    }
}

/// The tags of a note: frontmatter tags, then hashtags of the text, without empty names
/// or repetitions, in order of first appearance.
pub open spec fn note_tags(content: Seq<char>, fm: Frontmatter) -> Seq<Seq<char>> {
    add_tags(Seq::empty(), frontmatter_tags(fm) + hashtags_from(content, 0))
}

/// Appends `t` unless it is empty or already present.
fn add_tag(tags: &mut Vec<String>, t: String)
    ensures
        views(final(tags)@) == (if t@.len() > 0 && !views(old(tags)@).contains(t@) {
            views(old(tags)@).push(t@)
        } else {
            views(old(tags)@)
        }),
{
    let ghost before = views(tags@);
    assert(views(tags@) =~= tags@.map_values(|x: String| x@));
    let present = contains_string(tags, &t);
    if t.as_str().unicode_len() > 0 && !present {
        tags.push(t);
        assert(views(tags@) =~= before.push(t@));
    }
}

/// Adds the tags of one frontmatter value.
fn add_value_tags(tags: &mut Vec<String>, v: &Frontmatter)
    ensures
        views(final(tags)@) == add_tags(views(old(tags)@), value_tags(*v)),
{
    match v {
        Frontmatter::Str(t) => {
            let tv = str_to_chars(t.as_str());
            assert(tv@.subrange(0, tv@.len() as int) =~= tv@);
            let ghost before = views(tags@);
            add_tag(tags, trimmed_string(&tv, 0, tv.len()));
            proof {
                let c = seq![trim_ws(t@)];
                assert(c.drop_last() =~= Seq::<Seq<char>>::empty());
                assert(add_tags(before, c.drop_last()) == before);
                assert(c.last() == trim_ws(t@));
            }
        },
        Frontmatter::Sequence(items) => {
            let ghost start = views(tags@);
            let mut i: usize = 0;
            assert(items@.take(0) =~= Seq::<Frontmatter>::empty());
            while i < items.len()
                invariant
                    i <= items@.len(),
                    views(tags@) == add_tags(start, seq_str_tags(items@.take(i as int))),
                decreases items@.len() - i,
            {
                let ghost prev = seq_str_tags(items@.take(i as int));
                proof {
                    assert(items@.take(i + 1).drop_last() =~= items@.take(i as int));
                }
                match &items[i] {
                    Frontmatter::Str(t) => {
                        let tv = str_to_chars(t.as_str());
                        assert(tv@.subrange(0, tv@.len() as int) =~= tv@);
                        add_tag(tags, trimmed_string(&tv, 0, tv.len()));
                        proof {
                            let c = prev.push(trim_ws(t@));
                            assert(seq_str_tags(items@.take(i + 1)) =~= c);
                            assert(c.drop_last() =~= prev);
                        }
                    },
                    _ => {
                        proof {
                            assert(seq_str_tags(items@.take(i + 1)) =~= prev);
                        }
                    },
                }
                i += 1;
            }
            assert(items@.take(items@.len() as int) =~= items@);
        },
        _ => {},
    }
}

/// The value of the first mapping entry whose key is the string `key`.
pub(crate) fn mapping_lookup<'a>(entries: &'a Vec<(Frontmatter, Frontmatter)>, key: &str) -> (r: Option<&'a Frontmatter>)
    ensures
        match mapping_get(entries@, key@) {
            Some(v) => r == Some(&v),
            None => r is None,
        },
{
    let mut i: usize = 0;
    assert(entries@.skip(0) =~= entries@);
    while i < entries.len()
        invariant
            i <= entries@.len(),
            mapping_get(entries@, key@) == mapping_get(entries@.skip(i as int), key@),
        decreases entries@.len() - i,
    {
        assert(entries@.skip(i as int)[0] == entries@[i as int]);
        assert(entries@.skip(i as int).drop_first() =~= entries@.skip(i + 1));
        match &entries[i].0 {
            Frontmatter::Str(k) => {
                if str_eq(k.as_str(), key) {
                    return Some(&entries[i].1);
                }
            },
            _ => {},
        }
        i += 1;
    }
    None
}

/// The end of the run of tag characters that starts at `a`.
fn tag_run(v: &Vec<char>, a: usize) -> (e: usize)
    requires
        a <= v@.len(),
    ensures
        e == tag_run_end(v@, a as int),
{
    let mut e = a;
    while e < v.len() && (is_word_char(v[e]) || ('\u{4e00}' <= v[e] && v[e] <= '\u{9fa5}') || v[e] == '_' || v[e] == '-')
        invariant
            a <= e <= v@.len(),
            tag_run_end(v@, a as int) == tag_run_end(v@, e as int),
        decreases v@.len() - e,
    {
        e += 1;
    }
    e
}

/// Whether `c` is a tag character.
fn is_tag_char(c: char) -> (b: bool)
    ensures
        b == tag_char(c),
{
    is_word_char(c) || ('\u{4e00}' <= c && c <= '\u{9fa5}') || c == '_' || c == '-'
}

/// The hashtag matched at `st`, if any.
fn hashtag_at_exec(v: &Vec<char>, st: usize) -> (r: Option<(usize, usize)>)
    requires
        st <= v@.len(),
    ensures
        match hashtag_at(v@, st as int) {
            Some((a, e)) => r == Some((a as usize, e as usize)),
            None => r is None,
        },
{
    let n = v.len();
    proof {
        lemma_tag_run_end(v@, 1);
        lemma_tag_run_end(v@, st + 2);
    }
    if st == 0 && n > 1 && v[0] == '#' && is_tag_char(v[1]) {
        Some((1, tag_run(v, 1)))
    } else if n >= 3 && st < n - 2 && !is_word_char(v[st]) && v[st] != '#' && v[st + 1] == '#' && is_tag_char(
        v[st + 2],
    ) {
        Some((st + 2, tag_run(v, st + 2)))
    } else {
        None
    }
}

/// Extracts the tags of a note (see `note_tags`).
pub fn extract_tags(content: &str, frontmatter: &Frontmatter) -> (tags: Vec<String>)
    ensures
        views(tags@) == note_tags(content@, *frontmatter),
{
    let mut tags: Vec<String> = Vec::new();
    assert(views(tags@) =~= Seq::<Seq<char>>::empty());
    let ghost fmt = frontmatter_tags(*frontmatter);
    match frontmatter {
        Frontmatter::Mapping(entries) => {
            let ghost t1 = match mapping_get(entries@, "tags"@) {
                Some(v) => value_tags(v),
                None => Seq::<Seq<char>>::empty(),
            };
            let ghost t2 = match mapping_get(entries@, "tag"@) {
                Some(v) => value_tags(v),
                None => Seq::<Seq<char>>::empty(),
            };
            match mapping_lookup(entries, "tags") {
                Some(v) => add_value_tags(&mut tags, v),
                None => {},
            }
            assert(views(tags@) == add_tags(Seq::empty(), t1));
            match mapping_lookup(entries, "tag") {
                Some(v) => add_value_tags(&mut tags, v),
                None => {},
            }
            proof {
                lemma_add_tags_concat(Seq::empty(), t1, t2);
            }
        },
        _ => {},
    }
    assert(views(tags@) == add_tags(Seq::empty(), fmt));
    let v = str_to_chars(content);
    let mut i: usize = 0;
    proof {
        lemma_add_tags_concat(Seq::empty(), fmt, hashtags_from(v@, 0));
    }
    while i < v.len()
        invariant
            i <= v@.len(),
            v@ == content@,
            add_tags(Seq::empty(), fmt + hashtags_from(v@, 0)) == add_tags(views(tags@), hashtags_from(v@, i as int)),
        decreases v@.len() - i,
    {
        match hashtag_at_exec(&v, i) {
            Some((a, e)) => {
                proof {
                    lemma_tag_run_end(v@, a as int);
                    lemma_add_tags_concat(views(tags@), seq![v@.subrange(a as int, e as int)], hashtags_from(v@, e as int));
                    assert(seq![v@.subrange(a as int, e as int)].drop_last() =~= Seq::<Seq<char>>::empty());
                }
                let ghost before = views(tags@);
                let t = chars_range(&v, a, e);
                add_tag(&mut tags, t);
                proof {
                    let c = seq![v@.subrange(a as int, e as int)];
                    assert(add_tags(before, c.drop_last()) == before);
                    assert(c.last() == t@);
                    assert(hashtags_from(v@, i as int) == c + hashtags_from(v@, e as int));
                }
                i = e;
            },
            None => {
                assert(hashtags_from(v@, i as int) == hashtags_from(v@, i + 1));
                i += 1;
            },
        }
    }
    tags
}

/// A string of the characters `v[a..e]`.
fn chars_range(v: &Vec<char>, a: usize, e: usize) -> (s: String)
    requires
        a <= e <= v@.len(),
    ensures
        s@ == v@.subrange(a as int, e as int),
{
    crate::text::chars_to_string_range(v, a, e)
}

/// Adding two lists of candidates one after the other adds their concatenation.
pub proof fn lemma_add_tags_concat(tags: Seq<Seq<char>>, a: Seq<Seq<char>>, b: Seq<Seq<char>>)
    ensures
        add_tags(tags, a + b) == add_tags(add_tags(tags, a), b),
    decreases b.len(),
{
    if b.len() == 0 {
        assert(a + b =~= a);
    } else {
        lemma_add_tags_concat(tags, a, b.drop_last());
        assert((a + b).drop_last() =~= a + b.drop_last());
        assert((a + b).last() == b.last());
    }
}


/// Adding candidates keeps a tag list free of empty tags and of repetitions.
proof fn lemma_add_tags_distinct(tags: Seq<Seq<char>>, cands: Seq<Seq<char>>)
    requires
        forall|i: int| 0 <= i < tags.len() ==> (#[trigger] tags[i]).len() > 0,
        forall|i: int, j: int| 0 <= i < j < tags.len() ==> tags[i] != tags[j],
    ensures
        forall|i: int| 0 <= i < add_tags(tags, cands).len() ==> (#[trigger] add_tags(tags, cands)[i]).len() > 0,
        forall|i: int, j: int|
            0 <= i < j < add_tags(tags, cands).len() ==> add_tags(tags, cands)[i] != add_tags(tags, cands)[j],
    decreases cands.len(),
{
    if cands.len() > 0 {
        lemma_add_tags_distinct(tags, cands.drop_last());
        let prev = add_tags(tags, cands.drop_last());
        let t = cands.last();
        if t.len() > 0 && !prev.contains(t) {
            let r = prev.push(t);
            assert forall|i: int, j: int| 0 <= i < j < r.len() implies r[i] != r[j] by {
                if j == r.len() - 1 {
                    assert(prev[i] == r[i]);
                    if r[i] == t {
                        assert(prev.contains(t));
                    }
                }
            }
        }
    }
}

/// The tags of a note are never empty and never repeated, whatever the note holds.
pub proof fn lemma_note_tags_distinct(content: Seq<char>, fm: Frontmatter)
    ensures
        forall|i: int| 0 <= i < note_tags(content, fm).len() ==> (#[trigger] note_tags(content, fm)[i]).len() > 0,
        forall|i: int, j: int|
            0 <= i < j < note_tags(content, fm).len() ==> note_tags(content, fm)[i] != note_tags(content, fm)[j],
{
    lemma_add_tags_distinct(Seq::empty(), frontmatter_tags(fm) + hashtags_from(content, 0));
}
} // verus!
