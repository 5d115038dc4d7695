//! Expansion of note embeds: the placeholders that the Markdown pass leaves for
//! `![[note]]` become collapsible blocks holding the embedded note, two levels deep.
use vstd::prelude::*;
use crate::domain::Note;
use crate::keyed::StrKeyMap;
use crate::markdown::{pct_encode, percent_encode};
use crate::text::{
    chars_to_string_range, html_escape, html_escape_spec, matches_at, occurs_at, push_str,
    seq_ends_with, spec_to_lowercase, str_to_chars, to_lowercase, ends_with,
};
use crate::url::{decoded_or_empty, percent_decode_or_empty};

verus! {

/// The opening of an embed placeholder, up to its title attribute's value.
pub const EMBED_OPEN: &'static str = "<div class=\"note-embed-placeholder\" data-embed-title=\"";

/// What separates the title value from the section value.
pub const EMBED_MID: &'static str = "\" data-embed-section=\"";

/// The end of an embed placeholder after the section value.
pub const EMBED_CLOSE: &'static str = "\"></div>";

/// The first position at or after `k` that holds a double quote, or `h.len()`.
pub open spec fn next_quote(h: Seq<char>, k: int) -> int
    decreases h.len() - k,
{
    if k < 0 || k >= h.len() {
        h.len() as int
    } else if h[k] == '"' {
        k
    } else {
        next_quote(h, k + 1)
    }
}

/// The placeholder that starts at `i`, as the end of its title value, the start and
/// end of its section value and its own end; the title runs from the end of
/// `EMBED_OPEN` to the first quote, the section from the end of `EMBED_MID` to the next.
pub open spec fn embed_at(h: Seq<char>, i: int) -> Option<(int, int, int, int)> {
    let a = i + EMBED_OPEN@.len();
    let b = next_quote(h, a);
    let c = b + EMBED_MID@.len();
    let d = next_quote(h, c);
    if occurs_at(h, EMBED_OPEN@, i) && occurs_at(h, EMBED_MID@, b) && occurs_at(h, EMBED_CLOSE@, d) {
        Some((b, c, d, d + EMBED_CLOSE@.len()))
    } else {
        None
    }
}

/// The start of an expanded embed, up to the link target.
pub const DETAILS_OPEN: &'static str = "<details class=\"note-embed\" open>\n  <summary class=\"note-embed-title\">\n    <svg xmlns=\"http://www.w3.org/2000/svg\" width=\"14\" height=\"14\" viewBox=\"0 0 24 24\" fill=\"none\" stroke=\"currentColor\" stroke-width=\"2\" style=\"flex-shrink:0\">\n      <path d=\"M14\u{2e}5 2H6a2 2 0 0 0-2 2v16a2 2 0 0 0 2 2h12a2 2 0 0 0 2-2V7\u{2e}5L14\u{2e}5 2z\"/>\n      <polyline points=\"14 2 14 8 20 8\"/>\n    </svg>\n    <a href=\"/doc/";

/// What follows the link target, up to the link text.
pub const DETAILS_LINK: &'static str = "\" class=\"note-embed-link\">";

/// What follows the link text, up to the embedded content.
pub const DETAILS_BODY: &'static str = "</a>\n  </summary>\n  <div class=\"note-embed-content markdown-body\">";

/// The end of an expanded embed.
pub const DETAILS_CLOSE: &'static str = "</div>\n</details>";

/// The notice that replaces an embed nested too deeply, before the title.
pub const DEPTH_LIMIT_OPEN: &'static str = "<div class=\"note-embed-depth-limit\"><em>⚠️ 内嵌深度超限（最多 2 层）：";

/// The end of the depth notice.
pub const DEPTH_LIMIT_CLOSE: &'static str = "</em></div>";

/// The notice for an embed whose note has no content, before the target.
pub const UNAVAILABLE_OPEN: &'static str = "<div class=\"note-embed-missing\">⚠️ 笔记内容不可用：";

/// The notice for an embed whose note is not found, before the target.
pub const NOT_FOUND_OPEN: &'static str = "<div class=\"note-embed-missing\">⚠️ 找不到笔记：";

/// The end of a missing-note notice.
pub const NOTICE_CLOSE: &'static str = "</div>";

/// What introduces the section name after an embed's title.
pub const SECTION_MARK: &'static str = " § ";

/// How many more levels of embeds may still be expanded below `depth`.
pub open spec fn embed_measure(depth: int) -> int {
    if depth < 2 {
        2 - depth
    } else {
        0
    }
}

/// `next_quote` lies between `k` and the end, and every character before it is no quote.
pub proof fn lemma_next_quote(h: Seq<char>, k: int)
    requires
        0 <= k <= h.len(),
    ensures
        k <= next_quote(h, k) <= h.len(),
        next_quote(h, k) < h.len() ==> h[next_quote(h, k)] == '"',
        forall|j: int| k <= j < next_quote(h, k) ==> h[j] != '"',
    decreases h.len() - k,
{
    if k < h.len() && h[k] != '"' {
        lemma_next_quote(h, k + 1);
    }
}

/// A matched placeholder ends after it starts and within the text.
pub proof fn lemma_embed_at_bounds(h: Seq<char>, i: int)
    requires
        0 <= i,
        embed_at(h, i) is Some,
    ensures
        i < embed_at(h, i).unwrap().3 <= h.len(),
        i + EMBED_OPEN@.len() <= embed_at(h, i).unwrap().0 < embed_at(h, i).unwrap().1 <= embed_at(h, i).unwrap().2,
{
    reveal_strlit("<div class=\"note-embed-placeholder\" data-embed-title=\"");
    reveal_strlit("\" data-embed-section=\"");
    let a = i + EMBED_OPEN@.len();
    lemma_next_quote(h, a);
    let b = next_quote(h, a);
    lemma_next_quote(h, b + EMBED_MID@.len());
}

/// The target name without a `.md` ending (matched case-insensitively).
pub open spec fn embed_stem(target: Seq<char>) -> Seq<char> {
    if seq_ends_with(spec_to_lowercase(target), ".md"@) && target.len() >= 3 {
        target.subrange(0, target.len() - 3)
    } else {
        target
    }
}

/// The note an embed of `target` shows: through the link index by the stem, then by the
/// target itself, then the target as a note path, then with `.md` appended.
pub open spec fn embed_key(
    target: Seq<char>,
    notes: Map<Seq<char>, Note>,
    links: Map<Seq<char>, String>,
) -> Option<Seq<char>> {
    let stem = embed_stem(target);
    if links.contains_key(stem) {
        Some(links[stem]@)
    } else if links.contains_key(target) {
        Some(links[target]@)
    } else if notes.contains_key(target) {
        Some(target)
    } else if notes.contains_key(target + ".md"@) {
        Some(target + ".md"@)
    } else {
        None
    }
}

/// The collapsible block of an embedded note.
pub open spec fn details_spec(key: Seq<char>, title: Seq<char>, section: Seq<char>, content: Seq<char>) -> Seq<char> {
    let hint = if section.len() > 0 { SECTION_MARK@ + html_escape_spec(section) } else { Seq::empty() };
    DETAILS_OPEN@ + pct_encode(key) + DETAILS_LINK@ + html_escape_spec(title) + hint + DETAILS_BODY@
        + content + DETAILS_CLOSE@
}

/// What replaces the placeholder with the (encoded) title and section given: past the
/// depth limit a notice; otherwise the embedded note's block, its own embeds expanded
/// one level deeper, or a notice that the note is missing.
pub open spec fn embed_replacement(
    title_enc: Seq<char>,
    section_enc: Seq<char>,
    notes: Map<Seq<char>, Note>,
    links: Map<Seq<char>, String>,
    depth: int,
) -> Seq<char>
    decreases embed_measure(depth), 0int, 0int,
{
    let target = decoded_or_empty(title_enc);
    if depth >= 2 {
        DEPTH_LIMIT_OPEN@ + html_escape_spec(target) + DEPTH_LIMIT_CLOSE@
    } else {
        match embed_key(target, notes, links) {
            Some(key) => {
                if notes.contains_key(key) {
                    let note = notes[key];
                    details_spec(
                        key,
                        note.title@,
                        decoded_or_empty(section_enc),
                        expand_from(note.content_html@, 0, notes, links, depth + 1),
                    )
                } else {
                    UNAVAILABLE_OPEN@ + html_escape_spec(target) + NOTICE_CLOSE@
                }
            },
            None => NOT_FOUND_OPEN@ + html_escape_spec(target) + NOTICE_CLOSE@,
        }
    }
}

/// The text `h` from position `i` on, each placeholder replaced (see `embed_replacement`)
/// and every other character kept.
pub open spec fn expand_from(
    h: Seq<char>,
    i: int,
    notes: Map<Seq<char>, Note>,
    links: Map<Seq<char>, String>,
    depth: int,
) -> Seq<char>
    decreases embed_measure(depth), 1int, h.len() - i,
{
    if i < 0 || i >= h.len() {
        Seq::empty()
    } else {
        match embed_at(h, i) {
            Some(m) => {
                proof {
                    lemma_embed_at_bounds(h, i);
                }
                embed_replacement(
                    h.subrange(i + EMBED_OPEN@.len(), m.0),
                    h.subrange(m.1, m.2),
                    notes,
                    links,
                    depth,
                ) + expand_from(h, m.3, notes, links, depth)
            },
            None => seq![h[i]] + expand_from(h, i + 1, notes, links, depth),
        }
    }
}

/// The view of an optional string.
pub open spec fn opt_chars(o: Option<String>) -> Option<Seq<char>> {
    match o {
        Some(s) => Some(s@),
        None => None,
    }
}

/// The first quote at or after `k` (see `next_quote`).
fn find_quote(v: &Vec<char>, k: usize) -> (r: usize)
    requires
        k <= v@.len(),
    ensures
        r as int == next_quote(v@, k as int),
{
    proof {
        lemma_next_quote(v@, k as int);
    }
    let mut j = k;
    while j < v.len() && v[j] != '"'
        invariant
            k <= j <= v@.len(),
            next_quote(v@, k as int) == next_quote(v@, j as int),
        decreases v@.len() - j,
    {
        j += 1;
    }
    j
}

/// The placeholder starting at `i`, if any (see `embed_at`).
fn match_embed(v: &Vec<char>, i: usize) -> (r: Option<(usize, usize, usize, usize)>)
    requires
        i < v@.len(),
    ensures
        r is None <==> embed_at(v@, i as int) is None,
        r matches Some(m) ==> embed_at(v@, i as int) == Some((m.0 as int, m.1 as int, m.2 as int, m.3 as int)),
{
    let open = str_to_chars(EMBED_OPEN);
    let mid = str_to_chars(EMBED_MID);
    let close = str_to_chars(EMBED_CLOSE);
    let n = v.len();
    if !matches_at(v, i, &open) {
        return None;
    }
    let b = find_quote(v, i + open.len());
    if !matches_at(v, b, &mid) {
        return None;
    }
    let c = b + mid.len();
    let d = find_quote(v, c);
    if !matches_at(v, d, &close) {
        return None;
    }
    Some((b, c, d, d + close.len()))
}

/// The note key an embed of `target` resolves to (see `embed_key`).
fn resolve_embed(target: &String, notes: &StrKeyMap<Note>, links: &StrKeyMap<String>) -> (r: Option<String>)
    ensures
        opt_chars(r) == embed_key(target@, notes@, links@),
{
    let tv = str_to_chars(target.as_str());
    let lower = to_lowercase(target.as_str());
    let lv = str_to_chars(lower.as_str());
    let md = str_to_chars(".md");
    let stem = if ends_with(&lv, &md) && tv.len() >= 3 {
        chars_to_string_range(&tv, 0, tv.len() - 3)
    } else {
        target.clone()
    };
    assert(stem@ == embed_stem(target@));
    if let Some(p) = links.get(stem.as_str()) {
        return Some(p.clone());
    }
    if let Some(p) = links.get(target.as_str()) {
        return Some(p.clone());
    }
    if notes.contains_key(target.as_str()) {
        return Some(target.clone());
    }
    let mut with_md = target.clone();
    push_str(&mut with_md, ".md");
    if notes.contains_key(with_md.as_str()) {
        Some(with_md)
    } else {
        None
    }
}

/// What replaces one placeholder (see `embed_replacement`).
fn replace_embed(
    title_enc: &String,
    section_enc: &String,
    notes: &StrKeyMap<Note>,
    links: &StrKeyMap<String>,
    depth: u8,
) -> (r: String)
    ensures
        r@ == embed_replacement(title_enc@, section_enc@, notes@, links@, depth as int),
    decreases embed_measure(depth as int), 0int,
{
    let target = percent_decode_or_empty(title_enc.as_str());
    if depth >= 2 {
        let mut r = DEPTH_LIMIT_OPEN.to_string();
        push_str(&mut r, html_escape(target.as_str()).as_str());
        push_str(&mut r, DEPTH_LIMIT_CLOSE);
        return r;
    }
    match resolve_embed(&target, notes, links) {
        Some(key) => match notes.get(key.as_str()) {
            Some(note) => {
                let section = percent_decode_or_empty(section_enc.as_str());
                let content = expand_embeds(note.content_html.as_str(), notes, links, depth + 1);
                let mut r = DETAILS_OPEN.to_string();
                push_str(&mut r, percent_encode(key.as_str()).as_str());
                push_str(&mut r, DETAILS_LINK);
                push_str(&mut r, html_escape(note.title.as_str()).as_str());
                if section.unicode_len() > 0 {
                    push_str(&mut r, SECTION_MARK);
                    push_str(&mut r, html_escape(section.as_str()).as_str());
                }
                push_str(&mut r, DETAILS_BODY);
                push_str(&mut r, content.as_str());
                push_str(&mut r, DETAILS_CLOSE);
                r
            },
            None => {
                let mut r = UNAVAILABLE_OPEN.to_string();
                push_str(&mut r, html_escape(target.as_str()).as_str());
                push_str(&mut r, NOTICE_CLOSE);
                r
            },
        },
        None => {
            let mut r = NOT_FOUND_OPEN.to_string();
            push_str(&mut r, html_escape(target.as_str()).as_str());
            push_str(&mut r, NOTICE_CLOSE);
            r
        },
    }
}

/// Expands the embed placeholders of `html` at nesting level `depth` (see `expand_from`):
/// each becomes the embedded note's collapsible block, its own embeds expanded one level
/// deeper; from level 2 on a placeholder becomes a notice instead.
pub fn expand_embeds(html: &str, notes: &StrKeyMap<Note>, link_index: &StrKeyMap<String>, depth: u8) -> (r: String)
    ensures
        r@ == expand_from(html@, 0, notes@, link_index@, depth as int),
    decreases embed_measure(depth as int), 1int,
{
    let v = str_to_chars(html);
    let ghost h = v@;
    let ghost total = expand_from(h, 0, notes@, link_index@, depth as int);
    let mut out = String::new();
    let mut i: usize = 0;
    assert(out@ + expand_from(h, 0, notes@, link_index@, depth as int) =~= total);
    while i < v.len()
        invariant
            v@ == h,
            h == html@,
            i <= h.len(),
            total == expand_from(h, 0, notes@, link_index@, depth as int),
            out@ + expand_from(h, i as int, notes@, link_index@, depth as int) == total,
        decreases h.len() - i,
    {
        let ghost before = out@;
        match match_embed(&v, i) {
            Some(m) => {
                proof {
                    lemma_embed_at_bounds(h, i as int);
                }
                let open_len = EMBED_OPEN.unicode_len();
                let title = chars_to_string_range(&v, i + open_len, m.0);
                let section = chars_to_string_range(&v, m.1, m.2);
                let rep = replace_embed(&title, &section, notes, link_index, depth);
                push_str(&mut out, rep.as_str());
                i = m.3;
                assert(out@ + expand_from(h, i as int, notes@, link_index@, depth as int) =~= before + (rep@
                    + expand_from(h, i as int, notes@, link_index@, depth as int)));
            },
            None => {
                out.push(v[i]);
                i += 1;
                assert(out@ + expand_from(h, i as int, notes@, link_index@, depth as int) =~= before + (seq![h[i - 1]]
                    + expand_from(h, i as int, notes@, link_index@, depth as int)));
            },
        }
    }
    assert(out@ + Seq::<char>::empty() =~= out@);
    out
}


/// Text from position `i` on that holds no placeholder opening is kept as it is.
proof fn lemma_expand_plain_suffix(
    h: Seq<char>,
    i: int,
    notes: Map<Seq<char>, Note>,
    links: Map<Seq<char>, String>,
    depth: int,
)
    requires
        0 <= i <= h.len(),
        forall|k: int| 0 <= k ==> !#[trigger] occurs_at(h, EMBED_OPEN@, k),
    ensures
        expand_from(h, i, notes, links, depth) == h.subrange(i, h.len() as int),
    decreases h.len() - i,
{
    if i < h.len() {
        assert(!occurs_at(h, EMBED_OPEN@, i));
        lemma_expand_plain_suffix(h, i + 1, notes, links, depth);
        assert(h.subrange(i, h.len() as int) =~= seq![h[i]] + h.subrange(i + 1, h.len() as int));
    } else {
        assert(h.subrange(i, h.len() as int) =~= Seq::<char>::empty());
    }
}

/// HTML without any embed placeholder comes out of the expansion unchanged.
pub proof fn lemma_expand_without_placeholders(
    h: Seq<char>,
    notes: Map<Seq<char>, Note>,
    links: Map<Seq<char>, String>,
    depth: int,
)
    requires
        forall|k: int| 0 <= k ==> !#[trigger] occurs_at(h, EMBED_OPEN@, k),
    ensures
        expand_from(h, 0, notes, links, depth) == h,
{
    lemma_expand_plain_suffix(h, 0, notes, links, depth);
    assert(h.subrange(0, h.len() as int) =~= h);
}

/// From the second level of nesting on nothing of any note is shown: the expansion
/// there is the same whatever the notes and the link index hold.
pub proof fn lemma_depth_limit_ignores_notes(
    h: Seq<char>,
    i: int,
    notes: Map<Seq<char>, Note>,
    links: Map<Seq<char>, String>,
    other_notes: Map<Seq<char>, Note>,
    other_links: Map<Seq<char>, String>,
    depth: int,
)
    requires
        depth >= 2,
    ensures
        expand_from(h, i, notes, links, depth) == expand_from(h, i, other_notes, other_links, depth),
    decreases h.len() - i,
{
    if 0 <= i < h.len() {
        match embed_at(h, i) {
            Some(m) => {
                lemma_embed_at_bounds(h, i);
                lemma_depth_limit_ignores_notes(h, m.3, notes, links, other_notes, other_links, depth);
                let t = h.subrange(i + EMBED_OPEN@.len(), m.0);
                let sec = h.subrange(m.1, m.2);
                assert(embed_replacement(t, sec, notes, links, depth) == embed_replacement(
                    t,
                    sec,
                    other_notes,
                    other_links,
                    depth,
                ));
            },
            None => {
                lemma_depth_limit_ignores_notes(h, i + 1, notes, links, other_notes, other_links, depth);
            },
        }
    }
}
} // verus!
