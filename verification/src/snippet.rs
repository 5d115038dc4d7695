//! Search-result snippets: the text around the first hit of the query, with every hit
//! marked.
//!
//! Positions are byte offsets into the UTF-8 text, as the search engine counts them;
//! the text is cut only at character boundaries.
use vstd::prelude::*;
use vstd::utf8::{decode_utf8, encode_utf8, valid_utf8};
use crate::text::{collapse_whitespace, collapse_ws, spec_to_lowercase, str_to_chars, to_lowercase};

verus! {

/// A UTF-8 continuation byte.
pub open spec fn is_cont(b: u8) -> bool {
    0x80 <= b && b < 0xc0
}

/// `str::is_char_boundary` on the bytes of a string: the start, the end, or a byte
/// that does not continue a character.
pub open spec fn boundary(b: Seq<u8>, i: int) -> bool {
    i == 0 || i == b.len() || (0 < i < b.len() && !is_cont(b[i]))
}

/// ASCII lower-casing of one byte.
pub open spec fn lower_byte(x: u8) -> u8 {
    if 0x41 <= x && x <= 0x5a {
        (x + 32) as u8
    } else {
        x
    }
}

/// `n` matches `h` at the character boundary `i`, ASCII letters of `h` compared
/// lower-cased.
pub open spec fn ci_match_at(h: Seq<u8>, n: Seq<u8>, i: int) -> bool {
    &&& 0 <= i
    &&& i + n.len() <= h.len()
    &&& boundary(h, i)
    &&& forall|j: int| 0 <= j < n.len() ==> lower_byte(#[trigger] h[i + j]) == n[j]
}

/// The first position at or after `i` where `n` matches (see `ci_match_at`).
pub open spec fn first_ci(h: Seq<u8>, n: Seq<u8>, i: int) -> Option<int>
    decreases h.len() + 1 - i,
{
    if i < 0 || i + n.len() > h.len() {
        None
    } else if ci_match_at(h, n, i) {
        Some(i)
    } else {
        first_ci(h, n, i + 1)
    }
}

/// A match found from `i` on lies at or after `i` and within the text.
pub proof fn lemma_first_ci(h: Seq<u8>, n: Seq<u8>, i: int)
    ensures
        first_ci(h, n, i) matches Some(p) ==> i <= p && p + n.len() <= h.len() && ci_match_at(h, n, p),
        0 <= i && first_ci(h, n, i) is None ==> forall|k: int| i <= k ==> !#[trigger] ci_match_at(h, n, k),
    decreases h.len() + 1 - i,
{
    if i < 0 || i + n.len() > h.len() {
    } else if ci_match_at(h, n, i) {
    } else {
        lemma_first_ci(h, n, i + 1);
    }
}

/// The nearest character boundary at or below `x`.
pub open spec fn boundary_down(b: Seq<u8>, x: int) -> int
    decreases x,
{
    if x <= 0 || boundary(b, x) {
        x
    } else {
        boundary_down(b, x - 1)
    }
}

/// The nearest character boundary at or above `x`.
pub open spec fn boundary_up(b: Seq<u8>, x: int) -> int
    decreases b.len() - x,
{
    if x >= b.len() || boundary(b, x) {
        x
    } else {
        boundary_up(b, x + 1)
    }
}

/// The bytes between `start` and `end` (each clamped to the text), widened outwards to
/// character boundaries.
pub open spec fn safe_range(b: Seq<u8>, start: int, end: int) -> Seq<u8> {
    let s = if start < b.len() { start } else { b.len() as int };
    let e = if end < b.len() { end } else { b.len() as int };
    b.subrange(boundary_down(b, s), boundary_up(b, e))
}

/// The marked text from `ss` on, the text from `last` to the next match copied first:
/// each match of `n` whose end is a character boundary is wrapped in `<mark>` tags.
pub open spec fn mark_from(t: Seq<u8>, n: Seq<u8>, last: int, ss: int) -> Seq<u8>
    decreases t.len() - ss,
{
    if n.len() == 0 || ss < 0 || ss > t.len() || last < 0 || last > ss {
        t.subrange(if 0 <= last <= t.len() { last } else { 0 }, t.len() as int)
    } else {
        match first_ci(t, n, ss) {
            Some(p) => {
                proof {
                    lemma_first_ci(t, n, ss);
                }
                let e = p + n.len();
                if !boundary(t, e) {
                    mark_from(t, n, last, p + 1)
                } else {
                    t.subrange(last, p) + encode_utf8("<mark>"@) + t.subrange(p, e) + encode_utf8("</mark>"@)
                        + mark_from(t, n, e, e)
                }
            },
            None => t.subrange(last, t.len() as int),
        }
    }
}

/// The snippet of `content` for `term`, as bytes: where the lower-cased term matches the
/// whitespace-collapsed content, the text from 50 bytes before the match to 100 bytes
/// after it (the term's own length added), with `...` where text was cut off and each
/// match marked; otherwise the first `max_len` bytes, `...` where there was more, or a
/// placeholder for empty content.
pub open spec fn snippet_bytes(content: Seq<char>, term: Seq<char>, max_len: nat) -> Seq<u8> {
    let cb = encode_utf8(collapse_ws(content));
    let nb = encode_utf8(spec_to_lowercase(term));
    let tb = encode_utf8(term);
    let found = if nb.len() > 0 { first_ci(cb, nb, 0) } else { None };
    match found {
        Some(pos) => {
            let start = if pos >= 50 { pos - 50 } else { 0 };
            let end = if pos + tb.len() + 100 < cb.len() { pos + tb.len() + 100 } else { cb.len() as int };
            let piece = safe_range(cb, start, end);
            let marked = if tb.len() == 0 { piece } else { mark_from(piece, nb, 0, 0) };
            (if start > 0 { encode_utf8("..."@) } else { Seq::empty() }) + marked + (if end < cb.len() {
                encode_utf8("..."@)
            } else {
                Seq::empty()
            })
        },
        None => if cb.len() == 0 {
            encode_utf8("(无内容预览)"@)
        } else if cb.len() > max_len {
            safe_range(cb, 0, max_len as int) + encode_utf8("..."@)
        } else {
            safe_range(cb, 0, max_len as int)
        },
    }
}

/// Calls `String::from_utf8`, which gives the text of the bytes where they are valid
/// UTF-8 and an error otherwise.
#[verifier::external_body]
pub(crate) fn string_from_utf8(b: Vec<u8>) -> (r: Option<String>)
    ensures
        r is Some <==> valid_utf8(b@),
        r matches Some(s) ==> s@ == decode_utf8(b@),
{
    String::from_utf8(b).ok()
}


/// Appends the bytes `b[lo..hi]`.
pub(crate) fn push_bytes(out: &mut Vec<u8>, b: &[u8], lo: usize, hi: usize)
    requires
        lo <= hi <= b@.len(),
    ensures
        final(out)@ == old(out)@ + b@.subrange(lo as int, hi as int),
{
    let ghost start = out@;
    let mut i = lo;
    while i < hi
        invariant
            lo <= i <= hi <= b@.len(),
            out@ == start + b@.subrange(lo as int, i as int),
        decreases hi - i,
    {
        out.push(b[i]);
        i += 1;
        assert(out@ =~= start + b@.subrange(lo as int, i as int));
    }
}

/// Whether `i` is a character boundary of `b` (see `boundary`).
fn is_boundary(b: &[u8], i: usize) -> (r: bool)
    ensures
        r == boundary(b@, i as int),
{
    i == 0 || i == b.len() || (i < b.len() && !(0x80 <= b[i] && b[i] < 0xc0))
}

/// Whether the bytes of `n` equal those of `h` from `i` on, ASCII letters of `h`
/// lower-cased.
fn ci_match(h: &[u8], n: &[u8], i: usize) -> (r: bool)
    requires
        i + n@.len() <= h@.len(),
    ensures
        r == forall|j: int| 0 <= j < n@.len() ==> lower_byte(#[trigger] h@[i + j]) == n@[j],
{
    let hl = h.len();
    let mut j: usize = 0;
    while j < n.len()
        invariant
            hl == h@.len(),
            i + n@.len() <= h@.len(),
            j <= n@.len(),
            forall|k: int| 0 <= k < j ==> lower_byte(#[trigger] h@[i + k]) == n@[k],
        decreases n@.len() - j,
    {
        let x = h[i + j];
        let lx: u8 = if 0x41 <= x && x <= 0x5a {
            x + 32
        } else {
            x
        };
        if lx != n[j] {
            assert(lower_byte(h@[i + j as int]) != n@[j as int]);
            return false;
        }
        j += 1;
    }
    true
}

/// The first case-insensitive match of `n` in `h` at or after `from` (see `first_ci`).
fn find_ci_from(h: &[u8], n: &[u8], from: usize) -> (r: Option<usize>)
    ensures
        match r {
            Some(i) => first_ci(h@, n@, from as int) == Some(i as int),
            None => first_ci(h@, n@, from as int) is None,
        },
{
    let mut i = from;
    while i <= h.len() && n.len() <= h.len() - i
        invariant
            from <= i,
            first_ci(h@, n@, from as int) == first_ci(h@, n@, i as int),
        decreases h@.len() + 1 - i,
    {
        if is_boundary(h, i) && ci_match(h, n, i) {
            return Some(i);
        }
        i += 1;
    }
    None
}

/// Whether a lower-cased needle occurs in `haystack`, and where: the first byte offset,
/// at a character boundary, at which the needle's bytes equal the haystack's bytes with
/// ASCII letters lower-cased.
pub fn find_substr_ci(haystack: &str, needle_lower: &str) -> (r: Option<usize>)
    ensures
        match r {
            Some(i) => first_ci(encode_utf8(haystack@), encode_utf8(needle_lower@), 0) == Some(i as int),
            None => first_ci(encode_utf8(haystack@), encode_utf8(needle_lower@), 0) is None,
        },
{
    find_ci_from(haystack.as_bytes(), needle_lower.as_bytes(), 0)
}

/// The nearest boundary at or below `x` (see `boundary_down`).
pub(crate) fn down_to_boundary(b: &[u8], x: usize) -> (r: usize)
    requires
        x <= b@.len(),
    ensures
        r as int == boundary_down(b@, x as int),
{
    let mut a = x;
    while a > 0 && !is_boundary(b, a)
        invariant
            a <= x,
            boundary_down(b@, x as int) == boundary_down(b@, a as int),
        decreases a,
    {
        a -= 1;
    }
    a
}

/// The nearest boundary at or above `x` (see `boundary_up`).
pub(crate) fn up_to_boundary(b: &[u8], x: usize) -> (r: usize)
    requires
        x <= b@.len(),
    ensures
        r as int == boundary_up(b@, x as int),
        x <= r <= b@.len(),
{
    let mut e = x;
    while e < b.len() && !is_boundary(b, e)
        invariant
            x <= e <= b@.len(),
            boundary_up(b@, x as int) == boundary_up(b@, e as int),
        decreases b@.len() - e,
    {
        e += 1;
    }
    e
}

/// Appends the bytes of `safe_range(b, start, end)`.
fn push_safe_range(out: &mut Vec<u8>, b: &[u8], start: usize, end: usize)
    requires
        start <= end,
    ensures
        final(out)@ == old(out)@ + safe_range(b@, start as int, end as int),
{
    let s = if start < b.len() {
        start
    } else {
        b.len()
    };
    let e = if end < b.len() {
        end
    } else {
        b.len()
    };
    let a = down_to_boundary(b, s);
    let z = up_to_boundary(b, e);
    proof {
        lemma_boundary_down_le(b@, s as int);
    }
    push_bytes(out, b, a, z);
}

/// `boundary_down` never exceeds its argument.
pub(crate) proof fn lemma_boundary_down_le(b: Seq<u8>, x: int)
    ensures
        boundary_down(b, x) <= x,
        0 <= x ==> 0 <= boundary_down(b, x),
    decreases x,
{
    if x <= 0 || boundary(b, x) {
    } else {
        lemma_boundary_down_le(b, x - 1);
    }
}

/// Appends the marked text (see `mark_from`).
fn push_marked(out: &mut Vec<u8>, t: &[u8], n: &[u8])
    requires
        n@.len() > 0,
    ensures
        final(out)@ == old(out)@ + mark_from(t@, n@, 0, 0),
{
    let open = "<mark>".as_bytes();
    let close = "</mark>".as_bytes();
    let tl = t.len();
    let ghost start = out@;
    let mut last: usize = 0;
    let mut ss: usize = 0;
    loop
        invariant
            n@.len() > 0,
            start == old(out)@,
            tl == t@.len(),
            last <= ss <= t@.len(),
            open@ == encode_utf8("<mark>"@),
            close@ == encode_utf8("</mark>"@),
            start + mark_from(t@, n@, 0, 0) == out@ + mark_from(t@, n@, last as int, ss as int),
        decreases t@.len() - ss,
    {
        let ghost before = out@;
        match find_ci_from(t, n, ss) {
            Some(p) => {
                proof {
                    lemma_first_ci(t@, n@, ss as int);
                }
                let e = p + n.len();
                if !is_boundary(t, e) {
                    ss = p + 1;
                } else {
                    push_bytes(out, t, last, p);
                    push_bytes(out, open, 0, open.len());
                    push_bytes(out, t, p, e);
                    push_bytes(out, close, 0, close.len());
                    proof {
                        assert(open@.subrange(0, open@.len() as int) =~= open@);
                        assert(close@.subrange(0, close@.len() as int) =~= close@);
                        assert(out@ + mark_from(t@, n@, e as int, e as int) =~= before + (t@.subrange(last as int, p as int)
                            + encode_utf8("<mark>"@) + t@.subrange(p as int, e as int) + encode_utf8("</mark>"@)
                            + mark_from(t@, n@, e as int, e as int)));
                    }
                    last = e;
                    ss = e;
                }
            },
            None => {
                assert(mark_from(t@, n@, last as int, ss as int) == t@.subrange(last as int, t@.len() as int));
                push_bytes(out, t, last, t.len());
                assert(out@ =~= before + t@.subrange(last as int, t@.len() as int));
                assert(start + mark_from(t@, n@, 0, 0) == before + mark_from(t@, n@, last as int, ss as int));
                return;
            },
        }
    }
}

/// The text with every match of the lower-cased term marked (see `mark_from`), as text;
/// the text itself for an empty term.
pub open spec fn highlighted(text: Seq<char>, term: Seq<char>) -> Seq<char> {
    let nb = encode_utf8(spec_to_lowercase(term));
    let ob = if term.len() == 0 || nb.len() == 0 {
        encode_utf8(text)
    } else {
        mark_from(encode_utf8(text), nb, 0, 0)
    };
    if valid_utf8(ob) {
        decode_utf8(ob)
    } else {
        Seq::empty()
    }
}

/// Marks every match of `term` in `text` (see `mark_from`), ASCII letters compared
/// case-insensitively; the text is unchanged for an empty term. The result is the
/// marked bytes as text: they are cut only at character boundaries, so the empty
/// alternative below is never taken on well-formed text.
pub fn highlight_terms(text: &str, term: &str) -> (r: String)
    ensures
        r@ == highlighted(text@, term@),
{
    let tb = text.as_bytes();
    let lower = to_lowercase(term);
    let nb = lower.as_str().as_bytes();
    let mut out: Vec<u8> = Vec::new();
    if term.unicode_len() == 0 || nb.len() == 0 {
        push_bytes(&mut out, tb, 0, tb.len());
        assert(tb@.subrange(0, tb@.len() as int) =~= tb@);
    } else {
        push_marked(&mut out, tb, nb);
    }
    assert(out@ =~= Seq::<u8>::empty() + out@);
    match string_from_utf8(out) {
        Some(s) => s,
        None => String::new(),
    }
}

/// The text of `s` between the byte offsets `start` and `end`, clamped and widened to
/// character boundaries (see `safe_range`); the empty alternative is never taken on
/// well-formed text.
pub fn safe_substring(s: &str, start: usize, end: usize) -> (r: String)
    requires
        start <= end,
    ensures
        ({
            let ob = safe_range(encode_utf8(s@), start as int, end as int);
            r@ == if valid_utf8(ob) { decode_utf8(ob) } else { Seq::empty() }
        }),
{
    let mut out: Vec<u8> = Vec::new();
    push_safe_range(&mut out, s.as_bytes(), start, end);
    assert(out@ =~= Seq::<u8>::empty() + out@);
    match string_from_utf8(out) {
        Some(t) => t,
        None => String::new(),
    }
}

/// The snippet of a search result (see `snippet_bytes`), as text; the empty alternative
/// is never taken on well-formed text.
pub fn generate_snippet(content: &str, search_term: &str, max_len: usize) -> (r: String)
    ensures
        ({
            let ob = snippet_bytes(content@, search_term@, max_len as nat);
            r@ == if valid_utf8(ob) { decode_utf8(ob) } else { Seq::empty() }
        }),
{
    let cleaned = collapse_whitespace(&str_to_chars(content));
    let cb = cleaned.as_str().as_bytes();
    let lower = to_lowercase(search_term);
    let nb = lower.as_str().as_bytes();
    let tlen = search_term.as_bytes().len();
    let dots = "...".as_bytes();
    let mut out: Vec<u8> = Vec::new();
    assert(dots@.subrange(0, dots@.len() as int) =~= dots@);
    let found = if nb.len() > 0 {
        find_ci_from(cb, nb, 0)
    } else {
        None
    };
    match found {
        Some(pos) => {
            proof {
                lemma_first_ci(cb@, nb@, 0);
            }
            let start = if pos >= 50 {
                pos - 50
            } else {
                0
            };
            let end = if tlen < cb.len() - pos && 100 < cb.len() - pos - tlen {
                pos + tlen + 100
            } else {
                cb.len()
            };
            if start > 0 {
                push_bytes(&mut out, dots, 0, dots.len());
            }
            let mut piece: Vec<u8> = Vec::new();
            push_safe_range(&mut piece, cb, start, end);
            if tlen == 0 {
                push_bytes(&mut out, piece.as_slice(), 0, piece.len());
                assert(piece@.subrange(0, piece@.len() as int) =~= piece@);
            } else {
                push_marked(&mut out, piece.as_slice(), nb);
            }
            if end < cb.len() {
                push_bytes(&mut out, dots, 0, dots.len());
            }
        },
        None => {
            if cb.len() == 0 {
                let ph = "(无内容预览)".as_bytes();
                push_bytes(&mut out, ph, 0, ph.len());
                assert(ph@.subrange(0, ph@.len() as int) =~= ph@);
            } else {
                push_safe_range(&mut out, cb, 0, max_len);
                if cb.len() > max_len {
                    push_bytes(&mut out, dots, 0, dots.len());
                }
            }
        },
    }
    assert(out@ =~= snippet_bytes(content@, search_term@, max_len as nat));
    match string_from_utf8(out) {
        Some(t) => t,
        None => String::new(),
    }
}
} // verus!
