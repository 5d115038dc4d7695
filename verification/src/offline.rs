//! The browser-side helpers: a bitset of note positions, the n-gram tokenizer, the
//! offline note index and its search, note filtering, and text helpers shared with the
//! server.
use vstd::prelude::*;
use crate::config::{clone_strings, views};
use crate::search::{is_permutation, newest_first, order_newest_first, parse_tag_list, tag_list_spec};
use crate::text::{seq_starts_with, starts_with, trim_range, trim_ws};
use crate::domain::Note;
use crate::graph::{mtime_secs, note_mtime_secs};
use crate::indexer::note_values;
use crate::keyed::{contains_string, StrKeyMap};
use crate::sync::{strip_html_spec, strip_html_tags};
use crate::handlers::truncated_text;
use crate::snippet::{
    highlighted, highlight_terms, boundary, boundary_down, boundary_up, down_to_boundary, push_bytes, string_from_utf8, up_to_boundary,
};
use vstd::utf8::{decode_utf8, encode_utf8, valid_utf8};
use crate::text::{
    chars_to_string_range, is_alphanumeric, spec_is_alphanumeric, spec_to_lowercase, str_to_chars, to_lowercase,
    utf8_len, utf8_width,
};

verus! {

// ─── Bitset ──────────────────────────────────────────────────────────────────

/// Whether bit `i` is set in the words `bits` (bit `i % 64` of word `i / 64`).
pub open spec fn bit_set(bits: Seq<u64>, i: int) -> bool {
    0 <= i < 64 * bits.len() && (bits[i / 64] >> ((i % 64) as u64)) & 1u64 == 1u64
}

/// Setting bit `b` of `x` sets that bit and leaves the others.
proof fn lemma_set_bit(x: u64, b: u64, c: u64)
    requires
        b < 64,
        c < 64,
    ensures
        ((x | (1u64 << b)) >> c) & 1u64 == (if c == b {
            1u64
        } else {
            (x >> c) & 1u64
        }),
{
    assert(((x | (1u64 << b)) >> c) & 1u64 == (if c == b {
        1u64
    } else {
        (x >> c) & 1u64
    })) by (bit_vector)
        requires
            b < 64,
            c < 64,
    ;
}

/// No bit of zero is set.
proof fn lemma_zero_bits(c: u64)
    requires
        c < 64,
    ensures
        (0u64 >> c) & 1u64 == 0u64,
{
    assert((0u64 >> c) & 1u64 == 0u64) by (bit_vector);
}

/// A set of note positions below a fixed capacity, one bit per position.
pub struct Bitset {
    bits: Vec<u64>,
}

impl View for Bitset {
    type V = Set<int>;

    closed spec fn view(&self) -> Set<int> {
        Set::new(|i: int| bit_set(self.bits@, i))
    }
}

impl Bitset {
    #[verifier::type_invariant]
    closed spec fn inv(self) -> bool {
        64 * self.bits@.len() <= usize::MAX
    }

    /// The positions the set can hold: those below this number.
    pub closed spec fn capacity(self) -> nat {
        64 * self.bits@.len()
    }

    /// An empty set with room for `note_count` positions (rounded up to a multiple of 64).
    pub fn new(note_count: usize) -> (r: Self)
        requires
            note_count + 63 <= usize::MAX,
        ensures
            r@ == Set::<int>::empty(),
            r.capacity() == 64 * ((note_count + 63) / 64),
    {
        let words = (note_count + 63) / 64;
        let mut bits: Vec<u64> = Vec::new();
        let mut i: usize = 0;
        while i < words
            invariant
                i <= words,
                words == (note_count + 63) / 64,
                bits@.len() == i,
                forall|k: int| 0 <= k < i ==> #[trigger] bits@[k] == 0u64,
            decreases words - i,
        {
            bits.push(0u64);
            i += 1;
        }
        let r = Bitset { bits };
        assert forall|x: int| !bit_set(r.bits@, x) by {
            if 0 <= x < 64 * r.bits@.len() {
                lemma_zero_bits((x % 64) as u64);
            }
        }
        assert(r@ =~= Set::<int>::empty());
        r
    }

    /// Adds the positions of `indices` that are below the capacity; the others are
    /// ignored.
    pub fn union_with_slice(&mut self, indices: &[usize])
        ensures
            final(self).capacity() == old(self).capacity(),
            final(self)@ == old(self)@ + Set::new(
                |i: int| i < old(self).capacity() && exists|k: int| 0 <= k < indices@.len() && indices@[k] == i,
            ),
    {
        proof {
            use_type_invariant(&*self);
        }
        let ghost before = self@;
        let ghost cap = self.capacity();
        let mut bits: Vec<u64> = Vec::new();
        std::mem::swap(&mut bits, &mut self.bits);
        assert(bits@ == old(self).bits@);
        let mut n: usize = 0;
        while n < indices.len()
            invariant
                n <= indices@.len(),
                64 * bits@.len() == cap,
                cap <= usize::MAX,
                Set::new(|i: int| bit_set(bits@, i)) == before + Set::new(
                    |i: int| i < cap && exists|k: int| 0 <= k < n && indices@[k] == i,
                ),
            decreases indices@.len() - n,
        {
            let idx = indices[n];
            let word = idx / 64;
            let ghost old_bits = bits@;
            if word < bits.len() {
                let b: u64 = (idx % 64) as u64;
                let nw = bits[word] | (1u64 << b);
                bits.set(word, nw);
                proof {
                    assert forall|x: int| bit_set(bits@, x) == (bit_set(old_bits, x) || x == idx) by {
                        if 0 <= x < 64 * old_bits.len() {
                            lemma_set_bit(old_bits[word as int], b, (x % 64) as u64);
                            if x / 64 != word as int {
                                assert(bits@[x / 64] == old_bits[x / 64]);
                            }
                        }
                    }
                }
            }
            n += 1;
            proof {
                assert forall|i: int| #[trigger] bit_set(bits@, i) == (before.contains(i) || (i < cap && exists|k: int| 0 <= k < n && indices@[k] == i)) by {
                    assert(Set::new(|j: int| bit_set(old_bits, j)).contains(i) == bit_set(old_bits, i));
                    if i == idx as int && i < cap {
                        assert(indices@[n - 1] == i);
                    }
                    if exists|k: int| 0 <= k < n && indices@[k] == i {
                        let k = choose|k: int| 0 <= k < n && indices@[k] == i;
                        if k < n - 1 {
                            assert(exists|k2: int| 0 <= k2 < n - 1 && indices@[k2] == i);
                        }
                    }
                }
                assert(Set::new(|i: int| bit_set(bits@, i)) =~= before + Set::new(
                    |i: int| i < cap && exists|k: int| 0 <= k < n && indices@[k] == i,
                ));
            }
        }
        self.bits = bits;
    }

    /// The positions in the set, in ascending order.
    pub fn iter_ones(&self) -> (r: Vec<usize>)
        ensures
            forall|a: int, b: int| 0 <= a < b < r@.len() ==> r@[a] < r@[b],
            forall|k: int| 0 <= k < r@.len() ==> self@.contains(#[trigger] r@[k] as int),
            forall|i: int| self@.contains(i) ==> exists|k: int| 0 <= k < r@.len() && r@[k] == i,
    {
        proof {
            use_type_invariant(self);
        }
        let mut r: Vec<usize> = Vec::new();
        let mut w: usize = 0;
        while w < self.bits.len()
            invariant
                64 * self.bits@.len() <= usize::MAX,
                w <= self.bits@.len(),
                forall|a: int, b: int| 0 <= a < b < r@.len() ==> r@[a] < r@[b],
                forall|k: int| 0 <= k < r@.len() ==> #[trigger] r@[k] < 64 * w,
                forall|k: int| 0 <= k < r@.len() ==> bit_set(self.bits@, #[trigger] r@[k] as int),
                forall|i: int| 0 <= i < 64 * w && bit_set(self.bits@, i) ==> exists|k: int| 0 <= k < r@.len() && r@[k] == i,
            decreases self.bits@.len() - w,
        {
            let word = self.bits[w];
            let mut b: u64 = 0;
            while b < 64
                invariant
                    64 * self.bits@.len() <= usize::MAX,
                    w < self.bits@.len(),
                    word == self.bits@[w as int],
                    b <= 64,
                    forall|x: int, y: int| 0 <= x < y < r@.len() ==> r@[x] < r@[y],
                    forall|k: int| 0 <= k < r@.len() ==> #[trigger] r@[k] < 64 * w + b,
                    forall|k: int| 0 <= k < r@.len() ==> bit_set(self.bits@, #[trigger] r@[k] as int),
                    forall|i: int| 0 <= i < 64 * w + b && bit_set(self.bits@, i) ==> exists|k: int| 0 <= k < r@.len() && r@[k] == i,
                decreases 64 - b,
            {
                if (word >> b) & 1u64 == 1u64 {
                    let pos: usize = w * 64 + (b as usize);
                    let ghost before = r@;
                    r.push(pos);
                    proof {
                        let p = pos as int;
                        assert(p / 64 == w as int && p % 64 == b as int);
                        assert(bit_set(self.bits@, p));
                        assert forall|i: int| 0 <= i < 64 * w + b + 1 && bit_set(self.bits@, i) implies exists|k: int| 0 <= k < r@.len() && r@[k] == i by {
                            if i == p {
                                assert(r@[before.len() as int] == i);
                            } else {
                                let k = choose|k: int| 0 <= k < before.len() && before[k] == i;
                                assert(r@[k] == i);
                            }
                        }
                    }
                } else {
                    proof {
                        assert forall|i: int| 0 <= i < 64 * w + b + 1 && bit_set(self.bits@, i) implies exists|k: int| 0 <= k < r@.len() && r@[k] == i by {
                            if i == 64 * w + b {
                                assert(i / 64 == w as int && i % 64 == b as int);
                            }
                        }
                    }
                }
                b += 1;
            }
            w += 1;
        }
        r
    }
}


// ─── Tokenizer ───────────────────────────────────────────────────────────────

/// Characters of the CJK blocks: unified ideographs and extension A, hiragana,
/// katakana and Hangul syllables.
pub open spec fn is_cjk_char(c: char) -> bool {
    ||| ('\u{4E00}' <= c && c <= '\u{9FFF}')
    ||| ('\u{3400}' <= c && c <= '\u{4DBF}')
    ||| ('\u{3040}' <= c && c <= '\u{309F}')
    ||| ('\u{30A0}' <= c && c <= '\u{30FF}')
    ||| ('\u{AC00}' <= c && c <= '\u{D7AF}')
}

/// Whether `c` is a CJK character (see `is_cjk_char`).
pub fn is_cjk(c: char) -> (r: bool)
    ensures
        r == is_cjk_char(c),
{
    ('\u{4E00}' <= c && c <= '\u{9FFF}') || ('\u{3400}' <= c && c <= '\u{4DBF}') || ('\u{3040}' <= c && c
        <= '\u{309F}') || ('\u{30A0}' <= c && c <= '\u{30FF}') || ('\u{AC00}' <= c && c <= '\u{D7AF}')
}

/// Whether a token is exactly two CJK characters.
pub fn is_cjk_bigram(token: &str) -> (r: bool)
    ensures
        r == (token@.len() == 2 && is_cjk_char(token@[0]) && is_cjk_char(token@[1])),
{
    let v = str_to_chars(token);
    v.len() == 2 && is_cjk(v[0]) && is_cjk(v[1])
}

/// Scanning `s` for runs of alphanumeric characters: the finished runs of at least two
/// UTF-8 bytes, and the run under way.
pub open spec fn word_scan(s: Seq<char>) -> (Seq<Seq<char>>, Seq<char>)
    decreases s.len(),
{
    if s.len() == 0 {
        (Seq::empty(), Seq::empty())
    } else {
        let prev = word_scan(s.drop_last());
        let c = s.last();
        if spec_is_alphanumeric(c) {
            (prev.0, prev.1.push(c))
        } else if utf8_len(prev.1) >= 2 {
            (prev.0.push(prev.1), Seq::empty())
        } else {
            (prev.0, Seq::empty())
        }
    }
}

/// The pieces of `s` between non-alphanumeric characters that take at least two UTF-8
/// bytes, in order.
pub open spec fn alnum_words(s: Seq<char>) -> Seq<Seq<char>> {
    let r = word_scan(s);
    if utf8_len(r.1) >= 2 {
        r.0.push(r.1)
    } else {
        r.0
    }
}

/// The CJK n-grams that start at position `i` of `s`: the character itself and, when the
/// next one is CJK too, the pair.
pub open spec fn grams_at(s: Seq<char>, i: int) -> Seq<Seq<char>> {
    if is_cjk_char(s[i]) {
        if i + 1 < s.len() && is_cjk_char(s[i + 1]) {
            seq![seq![s[i]], seq![s[i], s[i + 1]]]
        } else {
            seq![seq![s[i]]]
        }
    } else {
        Seq::empty()
    }
}

/// The CJK n-grams that start at the first `n` positions of `s`, in order.
pub open spec fn cjk_grams(s: Seq<char>, n: nat) -> Seq<Seq<char>>
    decreases n,
{
    if n == 0 {
        Seq::empty()
    } else {
        cjk_grams(s, (n - 1) as nat) + grams_at(s, n - 1)
    }
}

/// The tokens of a text: of its lower-cased form, the alphanumeric words of at least two
/// bytes, then the CJK unigrams and bigrams.
pub open spec fn tokens_spec(text: Seq<char>) -> Seq<Seq<char>> {
    let l = spec_to_lowercase(text);
    alnum_words(l) + cjk_grams(l, l.len())
}

/// The number of UTF-8 bytes that encode `c`.
pub(crate) fn char_width(c: char) -> (w: usize)
    ensures
        w == utf8_width(c),
{
    let u = c as u32;
    if u < 0x80 {
        1
    } else if u < 0x800 {
        2
    } else if u < 0x10000 {
        3
    } else {
        4
    }
}

/// Splits a text into search tokens (see `tokens_spec`).
pub fn tokenize_text(text: &str) -> (r: Vec<String>)
    ensures
        views(r@) == tokens_spec(text@),
{
    let lower = to_lowercase(text);
    let v = str_to_chars(lower.as_str());
    let n = v.len();
    let mut tokens: Vec<String> = Vec::new();
    let mut start: usize = 0;
    let mut width: usize = 0;
    let mut i: usize = 0;
    while i < n
        invariant
            n == v@.len(),
            i <= n,
            start <= i,
            views(tokens@) == word_scan(v@.take(i as int)).0,
            v@.subrange(start as int, i as int) == word_scan(v@.take(i as int)).1,
            width == if utf8_len(v@.subrange(start as int, i as int)) >= 2 {
                2
            } else {
                utf8_len(v@.subrange(start as int, i as int))
            },
        decreases n - i,
    {
        let c = v[i];
        assert(v@.take(i + 1).drop_last() =~= v@.take(i as int));
        assert(v@.take(i + 1).last() == c);
        if is_alphanumeric(c) {
            let w = char_width(c);
            width = if width + w >= 2 {
                2
            } else {
                width + w
            };
            assert(v@.subrange(start as int, i + 1).drop_last() =~= v@.subrange(start as int, i as int));
        } else {
            if width >= 2 {
                let word = chars_to_string_range(&v, start, i);
                tokens.push(word);
                assert(views(tokens@) =~= word_scan(v@.take(i as int)).0.push(v@.subrange(start as int, i as int)));
            }
            start = i + 1;
            width = 0;
            assert(v@.subrange(start as int, i + 1) =~= Seq::<char>::empty());
        }
        i += 1;
    }
    assert(v@.take(n as int) =~= v@);
    if width >= 2 {
        let word = chars_to_string_range(&v, start, n);
        tokens.push(word);
        assert(views(tokens@) =~= word_scan(v@).0.push(v@.subrange(start as int, n as int)));
    }
    let ghost words = views(tokens@);
    assert(words == alnum_words(v@));
    let mut k: usize = 0;
    while k < n
        invariant
            n == v@.len(),
            k <= n,
            views(tokens@) == words + cjk_grams(v@, k as nat),
        decreases n - k,
    {
        let c = v[k];
        let ghost before = views(tokens@);
        if is_cjk(c) {
            tokens.push(chars_to_string_range(&v, k, k + 1));
            assert(v@.subrange(k as int, k + 1) =~= seq![c]);
            if k + 1 < n && is_cjk(v[k + 1]) {
                tokens.push(chars_to_string_range(&v, k, k + 2));
                assert(v@.subrange(k as int, k + 2) =~= seq![c, v@[k + 1]]);
            }
        }
        assert(views(tokens@) =~= before + grams_at(v@, k as int));
        k += 1;
    }
    tokens
}


// ─── Offline note index ──────────────────────────────────────────────────────

/// `s` with every repeated string after its first occurrence left out.
pub open spec fn dedup_seq(s: Seq<Seq<char>>) -> Seq<Seq<char>>
    decreases s.len(),
{
    if s.len() == 0 {
        s
    } else {
        let d = dedup_seq(s.drop_last());
        if d.contains(s.last()) {
            d
        } else {
            d.push(s.last())
        }
    }
}

/// `dedup_seq` keeps exactly the strings of its input, each once.
pub proof fn lemma_dedup(s: Seq<Seq<char>>)
    ensures
        forall|t: Seq<char>| dedup_seq(s).contains(t) <==> s.contains(t),
        dedup_seq(s).no_duplicates(),
    decreases s.len(),
{
    if s.len() > 0 {
        lemma_dedup(s.drop_last());
        let d = dedup_seq(s.drop_last());
        assert forall|t: Seq<char>| dedup_seq(s).contains(t) <==> s.contains(t) by {
            if s.contains(t) && t != s.last() {
                let k = choose|k: int| 0 <= k < s.len() && s[k] == t;
                assert(s.drop_last()[k] == t);
            }
            if s.drop_last().contains(t) {
                let k = choose|k: int| 0 <= k < s.drop_last().len() && s.drop_last()[k] == t;
                assert(s[k] == t);
            }
            if !d.contains(s.last()) && dedup_seq(s).contains(t) && !d.contains(t) {
                assert(t == s.last());
                assert(s[s.len() - 1] == t);
            }
            if !d.contains(s.last()) && d.contains(t) {
                let k = choose|k: int| 0 <= k < d.len() && d[k] == t;
                assert(d.push(s.last())[k] == t);
            }
            if !d.contains(s.last()) && t == s.last() {
                assert(d.push(s.last())[d.len() as int] == t);
            }
        }
    }
}

/// The strings of `v`, each once, in order of first occurrence.
fn dedup_strings(v: &Vec<String>) -> (r: Vec<String>)
    ensures
        views(r@) == dedup_seq(views(v@)),
{
    let mut r: Vec<String> = Vec::new();
    let mut i: usize = 0;
    while i < v.len()
        invariant
            i <= v@.len(),
            views(r@) == dedup_seq(views(v@).take(i as int)),
        decreases v@.len() - i,
    {
        assert(views(v@).take(i + 1).drop_last() =~= views(v@).take(i as int));
        assert(views(v@).take(i + 1).last() == v@[i as int]@);
        assert(r@.map_values(|x: String| x@) =~= views(r@));
        if !contains_string(&r, &v[i]) {
            r.push(v[i].clone());
            assert(views(r@) =~= dedup_seq(views(v@).take(i as int)).push(v@[i as int]@));
        }
        i += 1;
    }
    assert(views(v@).take(v@.len() as int) =~= views(v@));
    r
}

/// The tokens of the tags, tag after tag.
pub open spec fn tags_tokens(tags: Seq<Seq<char>>) -> Seq<Seq<char>>
    decreases tags.len(),
{
    if tags.len() == 0 {
        Seq::empty()
    } else {
        tags_tokens(tags.drop_last()) + tokens_spec(tags.last())
    }
}

/// The tokens of all tags (see `tags_tokens`).
fn tokenize_tags(tags: &Vec<String>) -> (r: Vec<String>)
    ensures
        views(r@) == tags_tokens(views(tags@)),
{
    let mut r: Vec<String> = Vec::new();
    let mut i: usize = 0;
    while i < tags.len()
        invariant
            i <= tags@.len(),
            views(r@) == tags_tokens(views(tags@).take(i as int)),
        decreases tags@.len() - i,
    {
        assert(views(tags@).take(i + 1).drop_last() =~= views(tags@).take(i as int));
        let mut toks = tokenize_text(tags[i].as_str());
        let ghost before = views(r@);
        let ghost tv = views(toks@);
        r.append(&mut toks);
        assert(views(r@) =~= before + tv);
        i += 1;
    }
    assert(views(tags@).take(tags@.len() as int) =~= views(tags@));
    r
}

/// An entry of the offline index, as the server writes it out.
pub struct NoteEntry {
    pub title: String,
    /// Path relative to the vault root (e.g. `folder/note.md`).
    pub path: String,
    pub tags: Vec<String>,
    /// The first part of the note's text.
    pub content: String,
    /// Modification time, in seconds since the Unix epoch.
    pub mtime: i64,
}

/// The number of fields of `e` (title, tags, content) whose tokens include `t`.
pub open spec fn field_count(e: NoteEntry, t: Seq<char>) -> nat {
    (if tokens_spec(e.title@).contains(t) {
        1nat
    } else {
        0nat
    }) + (if tags_tokens(views(e.tags@)).contains(t) {
        1nat
    } else {
        0nat
    }) + (if tokens_spec(e.content@).contains(t) {
        1nat
    } else {
        0nat
    })
}

/// The posting list of token `t`: each position of `ns`, in order, once per field of
/// that entry whose tokens include `t`.
pub open spec fn postings(ns: Seq<NoteEntry>, t: Seq<char>) -> Seq<usize>
    decreases ns.len(),
{
    if ns.len() == 0 {
        Seq::empty()
    } else {
        postings(ns.drop_last(), t) + Seq::new(field_count(ns.last(), t), |k: int| (ns.len() - 1) as usize)
    }
}

/// The list stored under `t`, or the empty list.
pub open spec fn posting_of(m: Map<Seq<char>, Vec<usize>>, t: Seq<char>) -> Seq<usize> {
    if m.contains_key(t) {
        m[t]@
    } else {
        Seq::empty()
    }
}

/// Appends `idx` to the list stored under `key`.
fn push_posting(m: &mut StrKeyMap<Vec<usize>>, key: &String, idx: usize)
    ensures
        forall|t: Seq<char>| #[trigger] posting_of(final(m)@, t) == if t == key@ {
            posting_of(old(m)@, t).push(idx)
        } else {
            posting_of(old(m)@, t)
        },
{
    let ghost old_view = m@;
    let existing = m.remove(key.as_str());
    let list = match existing {
        Some(mut v) => {
            v.push(idx);
            v
        },
        None => {
            let mut v: Vec<usize> = Vec::new();
            v.push(idx);
            v
        },
    };
    let ghost lv = list;
    m.insert(key.clone(), list);
    assert(m@ == old_view.remove(key@).insert(key@, lv));
    assert(posting_of(m@, key@) =~= posting_of(old_view, key@).push(idx));
}

/// Appends `idx` to the list of each of the distinct tokens `toks`.
fn add_postings(m: &mut StrKeyMap<Vec<usize>>, toks: &Vec<String>, idx: usize)
    requires
        views(toks@).no_duplicates(),
    ensures
        forall|t: Seq<char>| #[trigger] posting_of(final(m)@, t) == posting_of(old(m)@, t) + if views(toks@).contains(t) {
            seq![idx]
        } else {
            Seq::empty()
        },
{
    let ghost start = m@;
    let mut j: usize = 0;
    while j < toks.len()
        invariant
            j <= toks@.len(),
            views(toks@).no_duplicates(),
            forall|t: Seq<char>| #[trigger] posting_of(m@, t) == posting_of(start, t) + if views(toks@).take(j as int).contains(t) {
                seq![idx]
            } else {
                Seq::empty()
            },
        decreases toks@.len() - j,
    {
        let ghost before = m@;
        push_posting(m, &toks[j], idx);
        proof {
            let tj = toks@[j as int]@;
            let pre = views(toks@).take(j as int);
            let post = views(toks@).take(j + 1);
            assert(post =~= pre.push(tj));
            assert(!pre.contains(tj)) by {
                if pre.contains(tj) {
                    let k = choose|k: int| 0 <= k < pre.len() && pre[k] == tj;
                    assert(views(toks@)[k] == views(toks@)[j as int]);
                }
            }
            assert forall|t: Seq<char>| #[trigger] posting_of(m@, t) == posting_of(start, t) + if post.contains(t) {
                seq![idx]
            } else {
                Seq::empty()
            } by {
                if t == tj {
                    assert(post[j as int] == t);
                    assert(posting_of(m@, t) =~= posting_of(start, t) + seq![idx]);
                } else {
                    assert(post.contains(t) == pre.contains(t)) by {
                        if post.contains(t) {
                            let k = choose|k: int| 0 <= k < post.len() && post[k] == t;
                            assert(pre[k] == t);
                        }
                        if pre.contains(t) {
                            let k = choose|k: int| 0 <= k < pre.len() && pre[k] == t;
                            assert(post[k] == t);
                        }
                    }
                }
            }
        }
        j += 1;
    }
    assert(views(toks@).take(toks@.len() as int) =~= views(toks@));
}

/// The tokens of one entry, each field's kept once.
struct TokenCache {
    title_tokens: Vec<String>,
    tag_tokens: Vec<String>,
    content_tokens: Vec<String>,
}

/// The cache holds the distinct tokens of each field of `e`.
spec fn cache_ok(c: TokenCache, e: NoteEntry) -> bool {
    &&& views(c.title_tokens@) == dedup_seq(tokens_spec(e.title@))
    &&& views(c.tag_tokens@) == dedup_seq(tags_tokens(views(e.tags@)))
    &&& views(c.content_tokens@) == dedup_seq(tokens_spec(e.content@))
}

/// The offline search index: the entries, the tokens of each, and for each token its
/// posting list.
pub struct NoteIndex {
    notes: Vec<NoteEntry>,
    token_cache: Vec<TokenCache>,
    inverted: StrKeyMap<Vec<usize>>,
}

impl NoteIndex {
    #[verifier::type_invariant]
    closed spec fn index_ok(self) -> bool {
        &&& self.notes@.len() + 63 <= usize::MAX
        &&& self.token_cache@.len() == self.notes@.len()
        &&& forall|i: int| 0 <= i < self.notes@.len() ==> cache_ok(#[trigger] self.token_cache@[i], self.notes@[i])
        &&& forall|t: Seq<char>| #[trigger] posting_of(self.inverted@, t) == postings(self.notes@, t)
    }

    /// The entries, in load order.
    pub closed spec fn entries(self) -> Seq<NoteEntry> {
        self.notes@
    }

    /// Builds the index of `notes`: the tokens of each field, and the posting lists.
    pub fn from_entries(notes: Vec<NoteEntry>) -> (r: NoteIndex)
        requires
            notes@.len() + 63 <= usize::MAX,
        ensures
            r.entries() == notes@,
    {
        let n = notes.len();
        let mut inverted: StrKeyMap<Vec<usize>> = StrKeyMap::new();
        let mut token_cache: Vec<TokenCache> = Vec::new();
        let mut i: usize = 0;
        while i < n
            invariant
                n == notes@.len(),
                i <= n,
                token_cache@.len() == i,
                forall|k: int| 0 <= k < i ==> cache_ok(#[trigger] token_cache@[k], notes@[k]),
                forall|t: Seq<char>| #[trigger] posting_of(inverted@, t) == postings(notes@.take(i as int), t),
            decreases n - i,
        {
            let e = &notes[i];
            let title_tokens = dedup_strings(&tokenize_text(e.title.as_str()));
            let tag_tokens = dedup_strings(&tokenize_tags(&e.tags));
            let content_tokens = dedup_strings(&tokenize_text(e.content.as_str()));
            proof {
                lemma_dedup(tokens_spec(e.title@));
                lemma_dedup(tags_tokens(views(e.tags@)));
                lemma_dedup(tokens_spec(e.content@));
            }
            let ghost before = inverted@;
            add_postings(&mut inverted, &title_tokens, i);
            let ghost mid1 = inverted@;
            add_postings(&mut inverted, &tag_tokens, i);
            let ghost mid2 = inverted@;
            add_postings(&mut inverted, &content_tokens, i);
            proof {
                let ns = notes@.take(i + 1);
                assert(ns.drop_last() =~= notes@.take(i as int));
                assert(ns.last() == notes@[i as int]);
                assert forall|t: Seq<char>| #[trigger] posting_of(inverted@, t) == postings(ns, t) by {
                    let a = posting_of(before, t);
                    let f = field_count(notes@[i as int], t);
                    assert(posting_of(mid1, t) == posting_of(before, t) + if views(title_tokens@).contains(t) {
                        seq![i]
                    } else {
                        Seq::empty()
                    });
                    assert(posting_of(mid2, t) == posting_of(mid1, t) + if views(tag_tokens@).contains(t) {
                        seq![i]
                    } else {
                        Seq::empty()
                    });
                    assert(posting_of(inverted@, t) == posting_of(mid2, t) + if views(content_tokens@).contains(t) {
                        seq![i]
                    } else {
                        Seq::empty()
                    });
                    assert(posting_of(inverted@, t) =~= a + Seq::new(f, |k: int| i));
                }
            }
            token_cache.push(TokenCache { title_tokens, tag_tokens, content_tokens });
            i += 1;
        }
        assert(notes@.take(n as int) =~= notes@);
        NoteIndex { notes, token_cache, inverted }
    }

    /// The number of entries.
    pub fn note_count(&self) -> (r: usize)
        ensures
            r == self.entries().len(),
    {
        self.notes.len()
    }
}


// ─── Snippets of offline results ─────────────────────────────────────────────

/// The first position at or after `i` where the bytes `n` occur in `h`.
pub open spec fn first_exact(h: Seq<u8>, n: Seq<u8>, i: int) -> Option<int>
    decreases h.len() + 1 - i,
{
    if i < 0 || i + n.len() > h.len() {
        None
    } else if h.subrange(i, i + n.len()) == n {
        Some(i)
    } else {
        first_exact(h, n, i + 1)
    }
}

/// Where the bytes `n` first occur in `h`, as `str::find` reports it.
fn find_exact(h: &[u8], n: &[u8]) -> (r: Option<usize>)
    ensures
        match r {
            Some(i) => first_exact(h@, n@, 0) == Some(i as int),
            None => first_exact(h@, n@, 0) is None,
        },
{
    let mut i: usize = 0;
    while i <= h.len() && n.len() <= h.len() - i
        invariant
            first_exact(h@, n@, 0) == first_exact(h@, n@, i as int),
        decreases h@.len() + 1 - i,
    {
        let mut j: usize = 0;
        let mut same = true;
        while j < n.len()
            invariant
                i + n@.len() <= h@.len(),
                h@.len() == h.len(),
                j <= n@.len(),
                same == forall|k: int| 0 <= k < j ==> h@[i + k] == n@[k],
            decreases n@.len() - j,
        {
            if h[i + j] != n[j] {
                same = false;
            }
            j += 1;
        }
        if same {
            assert(h@.subrange(i as int, i + n@.len()) =~= n@);
            return Some(i);
        } else {
            assert(h@.subrange(i as int, i + n@.len()) != n@) by {
                let k = choose|k: int| 0 <= k < n@.len() && h@[i + k] != n@[k];
                assert(h@.subrange(i as int, i + n@.len())[k] == h@[i + k]);
            }
        }
        i += 1;
    }
    None
}

/// The earliest position in `lb` at which one of the tokens `qts` occurs.
pub open spec fn first_match(lb: Seq<u8>, qts: Seq<Seq<char>>) -> Option<int>
    decreases qts.len(),
{
    if qts.len() == 0 {
        None
    } else {
        let prev = first_match(lb, qts.drop_last());
        match first_exact(lb, encode_utf8(qts.last()), 0) {
            None => prev,
            Some(p) => match prev {
                None => Some(p),
                Some(q) => Some(if p < q { p } else { q }),
            },
        }
    }
}

/// The snippet of an offline result, as bytes: up to `max_len` bytes of the content from
/// 30 bytes before the first token match in the lower-cased content (or from the
/// start), widened to character boundaries, with `...` where text was cut off.
pub open spec fn snippet_of(content: Seq<char>, qts: Seq<Seq<char>>, max_len: nat) -> Seq<u8> {
    let cb = encode_utf8(content);
    let lb = encode_utf8(spec_to_lowercase(content));
    let start: int = match first_match(lb, qts) {
        Some(p) => if p >= 30 {
            p - 30
        } else {
            0
        },
        None => 0,
    };
    let end: int = if start + max_len < cb.len() {
        start + max_len
    } else {
        cb.len() as int
    };
    let s = boundary_down(cb, start);
    let e = boundary_up(cb, end);
    (if s > 0 {
        "..."@.map_values(|c: char| c as u8)
    } else {
        Seq::empty()
    }) + cb.subrange(s, e) + (if e < cb.len() {
        "..."@.map_values(|c: char| c as u8)
    } else {
        Seq::empty()
    })
}

/// The text of a snippet's bytes (always valid UTF-8, the cuts lying on character
/// boundaries; the empty text stands for the case that cannot arise).
pub open spec fn snippet_text(content: Seq<char>, qts: Seq<Seq<char>>, max_len: nat) -> Seq<char> {
    let b = snippet_of(content, qts, max_len);
    if valid_utf8(b) {
        decode_utf8(b)
    } else {
        Seq::empty()
    }
}

/// Above the end of the text, the nearest boundary below is the end.
proof fn lemma_boundary_down_above(b: Seq<u8>, x: int)
    requires
        x >= b.len(),
    ensures
        boundary_down(b, x) == b.len(),
    decreases x,
{
    if x > b.len() {
        assert(!boundary(b, x));
        lemma_boundary_down_above(b, x - 1);
    }
}

/// Appends the three bytes of `...`.
fn push_ellipsis(out: &mut Vec<u8>)
    ensures
        final(out)@ == old(out)@ + "..."@.map_values(|c: char| c as u8),
{
    proof {
        reveal_strlit("...");
    }
    out.push(0x2e);
    out.push(0x2e);
    out.push(0x2e);
    assert(final(out)@ =~= old(out)@ + "..."@.map_values(|c: char| c as u8));
}

/// The snippet of an offline result (see `snippet_text`).
fn make_snippet(content: &str, qts: &Vec<String>, max_len: usize) -> (r: String)
    ensures
        r@ == snippet_text(content@, views(qts@), max_len as nat),
{
    let cb = content.as_bytes();
    let lower = to_lowercase(content);
    let lb = lower.as_str().as_bytes();
    let mut best: Option<usize> = None;
    let mut k: usize = 0;
    while k < qts.len()
        invariant
            k <= qts@.len(),
            lb@ == encode_utf8(spec_to_lowercase(content@)),
            match best {
                Some(p) => first_match(lb@, views(qts@).take(k as int)) == Some(p as int),
                None => first_match(lb@, views(qts@).take(k as int)) is None,
            },
        decreases qts@.len() - k,
    {
        assert(views(qts@).take(k + 1).drop_last() =~= views(qts@).take(k as int));
        assert(views(qts@).take(k + 1).last() == qts@[k as int]@);
        let tb = qts[k].as_str().as_bytes();
        match find_exact(lb, tb) {
            None => {},
            Some(p) => {
                best = match best {
                    None => Some(p),
                    Some(q) => Some(if p < q { p } else { q }),
                };
            },
        }
        k += 1;
    }
    assert(views(qts@).take(qts@.len() as int) =~= views(qts@));
    let start: usize = match best {
        Some(p) => if p >= 30 {
            p - 30
        } else {
            0
        },
        None => 0,
    };
    let len = cb.len();
    let end: usize = if start >= len {
        len
    } else if len - start > max_len {
        start + max_len
    } else {
        len
    };
    let s = if start >= len {
        proof {
            lemma_boundary_down_above(cb@, start as int);
        }
        len
    } else {
        down_to_boundary(cb, start)
    };
    let e = up_to_boundary(cb, end);
    proof {
        if start < len {
            crate::snippet::lemma_boundary_down_le(cb@, start as int);
        }
    }
    let mut out: Vec<u8> = Vec::new();
    if s > 0 {
        push_ellipsis(&mut out);
    }
    push_bytes(&mut out, cb, s, e);
    if e < len {
        push_ellipsis(&mut out);
    }
    assert(out@ =~= snippet_of(content@, views(qts@), max_len as nat));
    match string_from_utf8(out) {
        Some(t) => t,
        None => String::new(),
    }
}


// ─── Offline search ──────────────────────────────────────────────────────────

/// The weight of a query token found in a title: 15 for a CJK bigram, 10 otherwise.
pub open spec fn title_weight(t: Seq<char>) -> nat {
    if t.len() == 2 && is_cjk_char(t[0]) && is_cjk_char(t[1]) {
        15
    } else {
        10
    }
}

/// What one query token adds to an entry's score: its title weight if a title token, 5 if
/// a tag token, 1 if a content token.
pub open spec fn token_score(e: NoteEntry, t: Seq<char>) -> nat {
    (if tokens_spec(e.title@).contains(t) {
        title_weight(t)
    } else {
        0nat
    }) + (if tags_tokens(views(e.tags@)).contains(t) {
        5nat
    } else {
        0nat
    }) + (if tokens_spec(e.content@).contains(t) {
        1nat
    } else {
        0nat
    })
}

/// An entry's score for the query tokens `qts`: the sum of their token scores.
pub open spec fn entry_score(e: NoteEntry, qts: Seq<Seq<char>>) -> nat
    decreases qts.len(),
{
    if qts.len() == 0 {
        0
    } else {
        entry_score(e, qts.drop_last()) + token_score(e, qts.last())
    }
}

/// A score is positive exactly when some field holds some query token, and each token
/// adds at most 21.
proof fn lemma_score(e: NoteEntry, qts: Seq<Seq<char>>)
    ensures
        entry_score(e, qts) > 0 <==> exists|k: int| 0 <= k < qts.len() && field_count(e, #[trigger] qts[k]) > 0,
        entry_score(e, qts) <= 21 * qts.len(),
    decreases qts.len(),
{
    if qts.len() > 0 {
        lemma_score(e, qts.drop_last());
        if exists|k: int| 0 <= k < qts.len() && field_count(e, #[trigger] qts[k]) > 0 {
            let k = choose|k: int| 0 <= k < qts.len() && field_count(e, #[trigger] qts[k]) > 0;
            if k < qts.len() - 1 {
                assert(qts.drop_last()[k] == qts[k]);
            }
        }
        if exists|k: int| 0 <= k < qts.drop_last().len() && field_count(e, #[trigger] qts.drop_last()[k]) > 0 {
            let k = choose|k: int| 0 <= k < qts.drop_last().len() && field_count(e, #[trigger] qts.drop_last()[k]) > 0;
            assert(qts[k] == qts.drop_last()[k]);
        }
        if field_count(e, qts.last()) > 0 {
            assert(qts[qts.len() - 1] == qts.last());
        }
    }
}

/// The posting list of a token holds exactly the positions whose entry has the token in
/// some field.
proof fn lemma_postings_members(ns: Seq<NoteEntry>, t: Seq<char>)
    requires
        ns.len() <= usize::MAX,
    ensures
        forall|k: int|
            0 <= k < postings(ns, t).len() ==> #[trigger] postings(ns, t)[k] < ns.len() && field_count(
                ns[postings(ns, t)[k] as int],
                t,
            ) > 0,
        forall|x: int|
            0 <= x < ns.len() && field_count(ns[x], t) > 0 ==> exists|k: int|
                0 <= k < postings(ns, t).len() && postings(ns, t)[k] == x,
    decreases ns.len(),
{
    if ns.len() > 0 {
        let prev = ns.drop_last();
        lemma_postings_members(prev, t);
        let p = postings(prev, t);
        let f = field_count(ns.last(), t);
        let tail = Seq::new(f, |k: int| (ns.len() - 1) as usize);
        assert(postings(ns, t) == p + tail);
        assert forall|k: int| 0 <= k < postings(ns, t).len() implies #[trigger] postings(ns, t)[k] < ns.len()
            && field_count(ns[postings(ns, t)[k] as int], t) > 0 by {
            if k < p.len() {
                assert(postings(ns, t)[k] == p[k]);
                assert(prev[p[k] as int] == ns[p[k] as int]);
            } else {
                assert(postings(ns, t)[k] == tail[k - p.len()]);
                assert(ns[ns.len() - 1] == ns.last());
            }
        }
        assert forall|x: int| 0 <= x < ns.len() && field_count(ns[x], t) > 0 implies exists|k: int|
            0 <= k < postings(ns, t).len() && postings(ns, t)[k] == x by {
            if x < ns.len() - 1 {
                assert(prev[x] == ns[x]);
                let k = choose|k: int| 0 <= k < p.len() && p[k] == x;
                assert(postings(ns, t)[k] == x);
            } else {
                assert(ns[x] == ns.last());
                assert(postings(ns, t)[p.len() as int] == tail[0]);
            }
        }
    }
}

/// The positions below `b` whose entries score above zero, in ascending order.
pub open spec fn hit_positions(ns: Seq<NoteEntry>, qts: Seq<Seq<char>>, b: nat) -> Seq<int>
    decreases b,
{
    if b == 0 {
        Seq::empty()
    } else {
        hit_positions(ns, qts, (b - 1) as nat) + if entry_score(ns[b - 1], qts) > 0 {
            seq![b - 1]
        } else {
            Seq::empty()
        }
    }
}

/// Positions that score zero add no hit.
proof fn lemma_hits_skip(ns: Seq<NoteEntry>, qts: Seq<Seq<char>>, b1: nat, b2: nat)
    requires
        b1 <= b2,
        forall|y: int| b1 <= y < b2 ==> entry_score(#[trigger] ns[y], qts) == 0,
    ensures
        hit_positions(ns, qts, b2) == hit_positions(ns, qts, b1),
    decreases b2,
{
    if b2 > b1 {
        lemma_hits_skip(ns, qts, b1, (b2 - 1) as nat);
        assert(entry_score(ns[b2 - 1], qts) == 0);
        assert(hit_positions(ns, qts, b2) =~= hit_positions(ns, qts, (b2 - 1) as nat));
    }
}

/// `order` puts smaller counts first and, among equal counts, keeps the input order.
pub open spec fn fewest_first(order: Seq<usize>, counts: Seq<int>) -> bool {
    forall|a: int, b: int|
        #![trigger order[a], order[b]]
        0 <= a < b < order.len() ==> counts[order[a] as int] < counts[order[b] as int] || (counts[order[a] as int]
            == counts[order[b] as int] && order[a] < order[b])
}

/// The tokens a query is searched by: its distinct tokens ordered by the length of their
/// posting lists, shortest first (ties in query order), at most eight of them.
pub open spec fn query_tokens_ok(ns: Seq<NoteEntry>, query: Seq<char>, qts: Seq<Seq<char>>) -> bool {
    let d = dedup_seq(tokens_spec(query));
    let counts = d.map_values(|t: Seq<char>| postings(ns, t).len() as int);
    exists|ord: Seq<usize>|
        #[trigger] is_permutation(ord, d.len()) && fewest_first(ord, counts) && qts == ord.take(
            if d.len() < 8 {
                d.len() as int
            } else {
                8
            },
        ).map_values(|i: usize| d[i as int])
}

/// A result of the offline search.
pub struct OfflineHit {
    pub title: String,
    pub path: String,
    pub snippet: String,
    pub score: u32,
    pub mtime: i64,
    pub tags: Vec<String>,
}

/// The key results are ordered by, largest first: the score, then the modification time.
pub open spec fn hit_key(e: NoteEntry, qts: Seq<Seq<char>>) -> int {
    entry_score(e, qts) * 0x1_0000_0000_0000_0000 + (e.mtime + 0x8000_0000_0000_0000)
}

/// The result shown for entry `e`.
pub open spec fn hit_ok(h: OfflineHit, e: NoteEntry, qts: Seq<Seq<char>>) -> bool {
    &&& h.title@ == e.title@
    &&& h.path@ == e.path@
    &&& h.tags@ == e.tags@
    &&& h.mtime == e.mtime
    &&& h.score == entry_score(e, qts)
    &&& h.snippet@ == snippet_text(e.content@, qts, 150)
}

/// The results for the query tokens `qts`: the entries that score above zero, by score
/// and then modification time, largest first (ties in entry order), at most `limit`.
pub open spec fn results_ok(ns: Seq<NoteEntry>, qts: Seq<Seq<char>>, limit: nat, r: Seq<OfflineHit>) -> bool {
    let hits = hit_positions(ns, qts, ns.len());
    exists|ord: Seq<usize>|
        #[trigger] is_permutation(ord, hits.len()) && newest_first(
            ord,
            hits.map_values(|x: int| hit_key(ns[x], qts)),
        ) && r.len() == (if limit < hits.len() {
            limit
        } else {
            hits.len()
        }) && forall|k: int| 0 <= k < r.len() ==> hit_ok(#[trigger] r[k], ns[hits[ord[k] as int]], qts)
}

/// A query with nothing but whitespace.
pub open spec fn blank_query(q: Seq<char>) -> bool {
    trim_ws(q).len() == 0
}

impl NoteIndex {
    /// The length of the posting list of `t`.
    fn doc_freq(&self, t: &String) -> (r: usize)
        ensures
            r == postings(self.entries(), t@).len(),
    {
        proof {
            use_type_invariant(self);
        }
        assert(posting_of(self.inverted@, t@) == postings(self.notes@, t@));
        match self.inverted.get(t.as_str()) {
            Some(p) => p.len(),
            None => 0,
        }
    }

    /// The query tokens of `query` (see `query_tokens_ok`).
    fn query_tokens(&self, query: &str) -> (r: Vec<String>)
        ensures
            query_tokens_ok(self.entries(), query@, views(r@)),
            r@.len() <= 8,
            r@.len() == 0 <==> dedup_seq(tokens_spec(query@)).len() == 0,
    {
        let all = dedup_strings(&tokenize_text(query));
        let ghost d = dedup_seq(tokens_spec(query@));
        let ghost counts = d.map_values(|t: Seq<char>| postings(self.entries(), t).len() as int);
        let mut keys: Vec<u128> = Vec::new();
        let mut i: usize = 0;
        while i < all.len()
            invariant
                views(all@) == d,
                counts == d.map_values(|t: Seq<char>| postings(self.entries(), t).len() as int),
                i <= all@.len(),
                keys@.len() == i,
                forall|k: int| 0 <= k < i ==> #[trigger] keys@[k] as int == usize::MAX - counts[k],
            decreases all@.len() - i,
        {
            let df = self.doc_freq(&all[i]);
            keys.push((usize::MAX - df) as u128);
            i += 1;
        }
        let ord = order_newest_first(&keys);
        let m: usize = if all.len() < 8 {
            all.len()
        } else {
            8
        };
        let mut r: Vec<String> = Vec::new();
        let mut k: usize = 0;
        while k < m
            invariant
                views(all@) == d,
                is_permutation(ord@, all@.len()),
                m <= all@.len(),
                k <= m,
                views(r@) == ord@.take(k as int).map_values(|i: usize| d[i as int]),
            decreases m - k,
        {
            assert(ord@[k as int] < all@.len());
            let t = all[ord[k]].clone();
            let ghost before = views(r@);
            r.push(t);
            assert(views(r@) =~= before.push(d[ord@[k as int] as int]));
            assert(ord@.take(k + 1) =~= ord@.take(k as int).push(ord@[k as int]));
            k += 1;
            assert(views(r@) =~= ord@.take(k as int).map_values(|i: usize| d[i as int]));
        }
        proof {
            let ks = keys@.map_values(|x: u128| x as int);
            assert forall|a: int, b: int|
                #![trigger ord@[a], ord@[b]]
                0 <= a < b < ord@.len() implies counts[ord@[a] as int] < counts[ord@[b] as int] || (
                counts[ord@[a] as int] == counts[ord@[b] as int] && ord@[a] < ord@[b]) by {
                assert(ks[ord@[a] as int] > ks[ord@[b] as int] || (ks[ord@[a] as int] == ks[ord@[b] as int] && ord@[a]
                    < ord@[b]));
                assert(keys@[ord@[a] as int] as int == usize::MAX - counts[ord@[a] as int]);
                assert(keys@[ord@[b] as int] as int == usize::MAX - counts[ord@[b] as int]);
            }
            assert(is_permutation(ord@, d.len()));
        }
        r
    }
}


impl NoteIndex {
    /// The score of entry `x` for the query tokens `qts` (see `entry_score`).
    fn score_of(&self, x: usize, qts: &Vec<String>) -> (r: u32)
        requires
            x < self.entries().len(),
            qts@.len() <= 8,
        ensures
            r == entry_score(self.entries()[x as int], views(qts@)),
    {
        proof {
            use_type_invariant(self);
        }
        let ghost e = self.notes@[x as int];
        let cache = &self.token_cache[x];
        assert(cache_ok(*cache, e));
        proof {
            lemma_dedup(tokens_spec(e.title@));
            lemma_dedup(tags_tokens(views(e.tags@)));
            lemma_dedup(tokens_spec(e.content@));
        }
        let mut total: u32 = 0;
        let mut k: usize = 0;
        while k < qts.len()
            invariant
                k <= qts@.len(),
                qts@.len() <= 8,
                cache_ok(*cache, e),
                forall|t: Seq<char>| views(cache.title_tokens@).contains(t) <==> tokens_spec(e.title@).contains(t),
                forall|t: Seq<char>| views(cache.tag_tokens@).contains(t) <==> tags_tokens(views(e.tags@)).contains(t),
                forall|t: Seq<char>| views(cache.content_tokens@).contains(t) <==> tokens_spec(e.content@).contains(t),
                total == entry_score(e, views(qts@).take(k as int)),
                total <= 21 * k,
            decreases qts@.len() - k,
        {
            let t = &qts[k];
            assert(views(qts@).take(k + 1).drop_last() =~= views(qts@).take(k as int));
            assert(views(qts@).take(k + 1).last() == t@);
            let w: u32 = if is_cjk_bigram(t.as_str()) {
                15
            } else {
                10
            };
            let mut add: u32 = 0;
            if contains_string(&cache.title_tokens, t) {
                add += w;
            }
            if contains_string(&cache.tag_tokens, t) {
                add += 5;
            }
            if contains_string(&cache.content_tokens, t) {
                add += 1;
            }
            assert(add == token_score(e, t@));
            total += add;
            k += 1;
        }
        assert(views(qts@).take(qts@.len() as int) =~= views(qts@));
        total
    }

    /// Searches the index: the entries that hold any query token (see `query_tokens_ok`)
    /// by score and then modification time, largest first, at most `limit` of them; no
    /// result for a blank query or one without tokens.
    pub fn search(&self, query: &str, limit: u32) -> (r: Vec<OfflineHit>)
        ensures
            blank_query(query@) || dedup_seq(tokens_spec(query@)).len() == 0 ==> r@.len() == 0,
            !blank_query(query@) && dedup_seq(tokens_spec(query@)).len() > 0 ==> exists|qts: Seq<Seq<char>>|
                #[trigger] query_tokens_ok(self.entries(), query@, qts) && results_ok(
                    self.entries(),
                    qts,
                    limit as nat,
                    r@,
                ),
    {
        proof {
            use_type_invariant(self);
        }
        let qv = str_to_chars(query);
        let (a, b) = trim_range(&qv, 0, qv.len());
        assert(qv@.subrange(0, qv@.len() as int) =~= qv@);
        if a == b {
            return Vec::new();
        }
        let qts = self.query_tokens(query);
        if qts.len() == 0 {
            return Vec::new();
        }
        let ghost ns = self.notes@;
        let ghost q = views(qts@);
        let n = self.notes.len();
        let mut bits = Bitset::new(n);
        let ghost cap = bits.capacity();
        let mut k: usize = 0;
        while k < qts.len()
            invariant
                ns == self.notes@,
                n == ns.len(),
                n + 63 <= usize::MAX,
                q == views(qts@),
                cap >= n,
                bits.capacity() == cap,
                forall|t: Seq<char>| #[trigger] posting_of(self.inverted@, t) == postings(self.notes@, t),
                k <= qts@.len(),
                forall|x: int| bits@.contains(x) <==> (0 <= x < n && exists|j: int| 0 <= j < k && field_count(
                    ns[x],
                    #[trigger] q[j],
                ) > 0),
            decreases qts@.len() - k,
        {
            let ghost before = bits@;
            proof {
                lemma_postings_members(ns, q[k as int]);
            }
            assert(posting_of(self.inverted@, q[k as int]) == postings(ns, q[k as int]));
            match self.inverted.get(qts[k].as_str()) {
                Some(p) => {
                    bits.union_with_slice(p.as_slice());
                },
                None => {},
            }
            proof {
                let pk = postings(ns, q[k as int]);
                assert forall|x: int| bits@.contains(x) <==> (0 <= x < n && exists|j: int| 0 <= j < k + 1 && field_count(
                    ns[x],
                    #[trigger] q[j],
                ) > 0) by {
                    if 0 <= x < n && field_count(ns[x], q[k as int]) > 0 {
                        let m = choose|m: int| 0 <= m < pk.len() && pk[m] == x;
                        assert(pk[m] == x);
                    }
                    if bits@.contains(x) && !before.contains(x) {
                        let m = choose|m: int| 0 <= m < pk.len() && pk[m] == x;
                        assert(pk[m] < n);
                    }
                    if exists|j: int| 0 <= j < k + 1 && field_count(ns[x], #[trigger] q[j]) > 0 {
                        let j = choose|j: int| 0 <= j < k + 1 && field_count(ns[x], #[trigger] q[j]) > 0;
                        if j < k {
                            assert(exists|j2: int| 0 <= j2 < k && field_count(ns[x], #[trigger] q[j2]) > 0);
                        }
                    }
                    if exists|j: int| 0 <= j < k && field_count(ns[x], #[trigger] q[j]) > 0 {
                        let j = choose|j: int| 0 <= j < k && field_count(ns[x], #[trigger] q[j]) > 0;
                        assert(0 <= j < k + 1);
                    }
                }
            }
            k += 1;
        }
        let ones = bits.iter_ones();
        let mut xs: Vec<usize> = Vec::new();
        let mut scores: Vec<u32> = Vec::new();
        let mut m: usize = 0;
        let mut lo: usize = 0;
        while m < ones.len()
            invariant
                ns == self.notes@,
                n == ns.len(),
                n + 63 <= usize::MAX,
                q == views(qts@),
                qts@.len() <= 8,
                forall|x: int| bits@.contains(x) <==> (0 <= x < n && exists|j: int| 0 <= j < q.len() && field_count(
                    ns[x],
                    #[trigger] q[j],
                ) > 0),
                forall|a: int, b: int| 0 <= a < b < ones@.len() ==> ones@[a] < ones@[b],
                forall|k: int| 0 <= k < ones@.len() ==> bits@.contains(#[trigger] ones@[k] as int),
                forall|i: int| bits@.contains(i) ==> exists|k: int| 0 <= k < ones@.len() && ones@[k] == i,
                m <= ones@.len(),
                lo <= n,
                m == 0 ==> lo == 0,
                m > 0 ==> lo == ones@[m - 1] + 1,
                xs@.map_values(|x: usize| x as int) == hit_positions(ns, q, lo as nat),
                forall|k: int| 0 <= k < xs@.len() ==> #[trigger] xs@[k] < n,
                scores@.len() == xs@.len(),
                forall|i: int| 0 <= i < xs@.len() ==> #[trigger] scores@[i] == entry_score(ns[xs@[i] as int], q),
            decreases ones@.len() - m,
        {
            let x = ones[m];
            proof {
                assert(bits@.contains(x as int));
                assert forall|y: int| lo <= y < x implies entry_score(#[trigger] ns[y], q) == 0 by {
                    lemma_score(ns[y], q);
                    if entry_score(ns[y], q) > 0 {
                        let j = choose|j: int| 0 <= j < q.len() && field_count(ns[y], #[trigger] q[j]) > 0;
                        assert(bits@.contains(y));
                        let kk = choose|kk: int| 0 <= kk < ones@.len() && ones@[kk] == y;
                        if kk < m {
                            if kk < m - 1 {
                                assert(ones@[kk] < ones@[m - 1]);
                            }
                        } else if kk > m {
                            assert(ones@[m as int] < ones@[kk]);
                        }
                    }
                }
                lemma_hits_skip(ns, q, lo as nat, x as nat);
            }
            let sc = self.score_of(x, &qts);
            let ghost before = xs@.map_values(|v: usize| v as int);
            if sc > 0 {
                xs.push(x);
                scores.push(sc);
                assert(xs@.map_values(|v: usize| v as int) =~= before.push(x as int));
            } else {
                assert(xs@.map_values(|v: usize| v as int) =~= before);
            }
            assert(hit_positions(ns, q, (x + 1) as nat) == hit_positions(ns, q, x as nat) + if entry_score(ns[x as int], q) > 0 {
                seq![x as int]
            } else {
                Seq::<int>::empty()
            });
            lo = x + 1;
            m += 1;
        }
        proof {
            assert forall|y: int| lo <= y < n implies entry_score(#[trigger] ns[y], q) == 0 by {
                lemma_score(ns[y], q);
                if entry_score(ns[y], q) > 0 {
                    let j = choose|j: int| 0 <= j < q.len() && field_count(ns[y], #[trigger] q[j]) > 0;
                    assert(bits@.contains(y));
                    let kk = choose|kk: int| 0 <= kk < ones@.len() && ones@[kk] == y;
                    if kk < m - 1 {
                        assert(ones@[kk] < ones@[m - 1]);
                    }
                }
            }
            lemma_hits_skip(ns, q, lo as nat, n as nat);
        }
        let ghost hits = hit_positions(ns, q, n as nat);
        let mut keys: Vec<u128> = Vec::new();
        let mut i: usize = 0;
        while i < xs.len()
            invariant
                ns == self.notes@,
                n == ns.len(),
                xs@.map_values(|x: usize| x as int) == hits,
                scores@.len() == xs@.len(),
                forall|k: int| 0 <= k < xs@.len() ==> #[trigger] scores@[k] == entry_score(ns[xs@[k] as int], q),
                forall|k: int| 0 <= k < xs@.len() ==> #[trigger] xs@[k] < n,
                qts@.len() <= 8,
                q == views(qts@),
                i <= xs@.len(),
                keys@.len() == i,
                forall|k: int| 0 <= k < i ==> #[trigger] keys@[k] as int == hit_key(ns[xs@[k] as int], q),
            decreases xs@.len() - i,
        {
            let e = &self.notes[xs[i]];
            proof {
                lemma_score(ns[xs@[i as int] as int], q);
            }
            let sc = scores[i] as u128;
            let shifted: u128 = ((e.mtime as i128) + 0x8000_0000_0000_0000i128) as u128;
            keys.push(sc * 0x1_0000_0000_0000_0000u128 + shifted);
            i += 1;
        }
        let ord = order_newest_first(&keys);
        let lim = limit as usize;
        let count: usize = if lim < xs.len() {
            lim
        } else {
            xs.len()
        };
        let mut r: Vec<OfflineHit> = Vec::new();
        let mut k: usize = 0;
        while k < count
            invariant
                ns == self.notes@,
                n == ns.len(),
                xs@.map_values(|x: usize| x as int) == hits,
                scores@.len() == xs@.len(),
                forall|k: int| 0 <= k < xs@.len() ==> #[trigger] scores@[k] == entry_score(ns[xs@[k] as int], q),
                forall|k: int| 0 <= k < xs@.len() ==> #[trigger] xs@[k] < n,
                is_permutation(ord@, xs@.len()),
                q == views(qts@),
                count <= xs@.len(),
                k <= count,
                r@.len() == k,
                forall|j: int| 0 <= j < k ==> hit_ok(#[trigger] r@[j], ns[hits[ord@[j] as int]], q),
            decreases count - k,
        {
            let j = ord[k];
            assert(ord@[k as int] < xs@.len());
            let x = xs[j];
            assert(hits[j as int] == x as int);
            let e = &self.notes[x];
            let hit = OfflineHit {
                title: e.title.clone(),
                path: e.path.clone(),
                snippet: make_snippet(e.content.as_str(), &qts, 150),
                score: scores[j],
                mtime: e.mtime,
                tags: clone_strings(&e.tags),
            };
            r.push(hit);
            k += 1;
        }
        proof {
            let ks = keys@.map_values(|x: u128| x as int);
            assert(ks =~= hits.map_values(|x: int| hit_key(ns[x], q)));
            assert(is_permutation(ord@, hits.len()));
        }
        r
    }
}


// ─── Note filtering ──────────────────────────────────────────────────────────

/// A note as the filter sees it.
pub struct FilterNote {
    pub title: String,
    pub path: String,
    pub tags: Vec<String>,
}

/// The tags lower-cased.
pub open spec fn lowered(tags: Seq<String>) -> Seq<Seq<char>> {
    tags.map_values(|t: String| spec_to_lowercase(t@))
}

/// A note passes when its lower-cased path starts with the lower-cased folder (any path
/// does for an empty folder) and each required tag is one of its lower-cased tags.
pub open spec fn passes(n: FilterNote, required: Seq<Seq<char>>, folder_lower: Seq<char>) -> bool {
    &&& (folder_lower.len() == 0 || seq_starts_with(spec_to_lowercase(n.path@), folder_lower))
    &&& forall|k: int| 0 <= k < required.len() ==> lowered(n.tags@).contains(#[trigger] required[k])
}

/// The positions below `b` of the notes that pass, in order.
pub open spec fn passing_positions(
    ns: Seq<FilterNote>,
    required: Seq<Seq<char>>,
    folder_lower: Seq<char>,
    b: nat,
) -> Seq<int>
    decreases b,
{
    if b == 0 {
        Seq::empty()
    } else {
        passing_positions(ns, required, folder_lower, (b - 1) as nat) + if passes(ns[b - 1], required, folder_lower) {
            seq![b - 1]
        } else {
            Seq::empty()
        }
    }
}

/// A copy of a note.
pub open spec fn same_note(a: FilterNote, b: FilterNote) -> bool {
    a.title@ == b.title@ && a.path@ == b.path@ && a.tags@ == b.tags@
}

/// The strings lower-cased.
fn lower_all(tags: &Vec<String>) -> (r: Vec<String>)
    ensures
        views(r@) == lowered(tags@),
{
    let mut r: Vec<String> = Vec::new();
    let mut i: usize = 0;
    while i < tags.len()
        invariant
            i <= tags@.len(),
            views(r@) == lowered(tags@).take(i as int),
        decreases tags@.len() - i,
    {
        let l = to_lowercase(tags[i].as_str());
        let ghost before = views(r@);
        r.push(l);
        assert(views(r@) =~= before.push(spec_to_lowercase(tags@[i as int]@)));
        i += 1;
        assert(views(r@) =~= lowered(tags@).take(i as int));
    }
    assert(lowered(tags@).take(tags@.len() as int) =~= lowered(tags@));
    r
}

/// Whether each of `required` is one of `have`.
fn contains_all(have: &Vec<String>, required: &Vec<String>) -> (b: bool)
    ensures
        b == forall|k: int| 0 <= k < required@.len() ==> views(have@).contains(#[trigger] views(required@)[k]),
{
    let mut i: usize = 0;
    while i < required.len()
        invariant
            i <= required@.len(),
            forall|k: int| 0 <= k < i ==> views(have@).contains(#[trigger] views(required@)[k]),
        decreases required@.len() - i,
    {
        assert(have@.map_values(|x: String| x@) =~= views(have@));
        if !contains_string(have, &required[i]) {
            assert(!views(have@).contains(views(required@)[i as int]));
            return false;
        }
        i += 1;
    }
    true
}

/// The notes that pass the filter (see `passes`), in order, at most `limit` of them: the
/// required tags are the comma-separated pieces of `tags_filter`, trimmed, empty pieces
/// dropped, and the folder is `folder_filter` lower-cased.
pub fn filter_notes(notes: &Vec<FilterNote>, tags_filter: &str, folder_filter: &str, limit: u32) -> (r: Vec<
    FilterNote,
>)
    ensures
        ({
            let pos = passing_positions(
                notes@,
                tag_list_spec(tags_filter@),
                spec_to_lowercase(folder_filter@),
                notes@.len(),
            );
            &&& r@.len() == if (limit as int) < pos.len() {
                limit as int
            } else {
                pos.len() as int
            }
            &&& forall|k: int| 0 <= k < r@.len() ==> same_note(#[trigger] r@[k], notes@[pos[k]])
        }),
{
    let required: Vec<String> = match parse_tag_list(tags_filter) {
        Some(v) => v,
        None => Vec::new(),
    };
    let ghost req = tag_list_spec(tags_filter@);
    assert(views(required@) == req);
    let folder_lower = to_lowercase(folder_filter);
    let fl = str_to_chars(folder_lower.as_str());
    let ghost fls = spec_to_lowercase(folder_filter@);
    let lim = limit as usize;
    let mut r: Vec<FilterNote> = Vec::new();
    let mut i: usize = 0;
    while i < notes.len()
        invariant
            i <= notes@.len(),
            views(required@) == req,
            fl@ == fls,
            lim == limit as usize,
            ({
                let pos = passing_positions(notes@, req, fls, i as nat);
                &&& r@.len() == if (lim as int) < pos.len() {
                    lim as int
                } else {
                    pos.len() as int
                }
                &&& forall|k: int| 0 <= k < r@.len() ==> same_note(#[trigger] r@[k], notes@[pos[k]])
            }),
        decreases notes@.len() - i,
    {
        let n = &notes[i];
        let path_lower = str_to_chars(to_lowercase(n.path.as_str()).as_str());
        let in_folder = fl.len() == 0 || starts_with(&path_lower, &fl);
        let tags_lower = lower_all(&n.tags);
        let ok = in_folder && contains_all(&tags_lower, &required);
        proof {
            assert(ok == passes(*n, req, fls)) by {
                if in_folder && (forall|k: int| 0 <= k < required@.len() ==> views(tags_lower@).contains(#[trigger] views(required@)[k])) {
                    assert forall|k: int| 0 <= k < req.len() implies lowered(n.tags@).contains(#[trigger] req[k]) by {
                        assert(views(required@)[k] == req[k]);
                    }
                }
                if passes(*n, req, fls) {
                    assert forall|k: int| 0 <= k < required@.len() implies views(tags_lower@).contains(#[trigger] views(required@)[k]) by {
                        assert(lowered(n.tags@).contains(req[k]));
                    }
                }
            }
        }
        let ghost before = passing_positions(notes@, req, fls, i as nat);
        if ok && r.len() < lim {
            let copy = FilterNote { title: n.title.clone(), path: n.path.clone(), tags: clone_strings(&n.tags) };
            r.push(copy);
        }
        proof {
            let after = passing_positions(notes@, req, fls, (i + 1) as nat);
            if ok {
                assert(after == before.push(i as int));
                assert forall|k: int| 0 <= k < r@.len() implies same_note(#[trigger] r@[k], notes@[after[k]]) by {
                    assert(k < before.len() ==> after[k] == before[k]);
                }
            } else {
                assert(after =~= before);
            }
        }
        i += 1;
    }
    r
}


// ─── Text helpers shared with the server ─────────────────────────────────────

/// Wraps each case-insensitive match of `term` in `text` in `<mark>` tags, as the
/// server's search snippets do.
pub fn highlight_term(text: &str, term: &str) -> (r: String)
    ensures
        r@ == highlighted(text@, term@),
{
    highlight_terms(text, term)
}

/// The visible text of an HTML fragment, cut to `max_chars` characters, as the server's
/// previews are.
pub fn truncate_html(html: &str, max_chars: usize) -> (r: String)
    ensures
        r@ == truncated_text(html@, max_chars as nat),
{
    crate::handlers::truncate_html(html, max_chars)
}


// ─── The index the server writes out ─────────────────────────────────────────

/// The offline entry of a note: its title, path and tags, the first 300 characters of
/// its plain text, and its modification time in seconds.
pub open spec fn entry_of(n: Note) -> (Seq<char>, Seq<char>, Seq<String>, Seq<char>, i64) {
    (n.title@, n.path@, n.tags@, strip_html_spec(n.content_html@).take(
        if strip_html_spec(n.content_html@).len() < 300 {
            strip_html_spec(n.content_html@).len() as int
        } else {
            300
        },
    ), mtime_secs(n.mtime))
}

/// The entry as a tuple of its fields.
pub open spec fn entry_view(e: NoteEntry) -> (Seq<char>, Seq<char>, Seq<String>, Seq<char>, i64) {
    (e.title@, e.path@, e.tags@, e.content@, e.mtime)
}

/// The entries of the offline index for `notes`, one per note in note order.
pub fn offline_entries(notes: &StrKeyMap<Note>) -> (r: Vec<NoteEntry>)
    ensures
        r@.len() == note_values(*notes).len(),
        forall|k: int| 0 <= k < r@.len() ==> entry_view(#[trigger] r@[k]) == entry_of(note_values(*notes)[k]),
{
    let ghost ns = note_values(*notes);
    let n = notes.len();
    let mut r: Vec<NoteEntry> = Vec::new();
    let mut i: usize = 0;
    while i < n
        invariant
            n == notes.entries().len(),
            ns == note_values(*notes),
            i <= n,
            r@.len() == i,
            forall|k: int| 0 <= k < i ==> entry_view(#[trigger] r@[k]) == entry_of(ns[k]),
        decreases n - i,
    {
        let note = notes.value_at(i);
        assert(ns[i as int] == *note);
        let plain = str_to_chars(strip_html_tags(note.content_html.as_str()).as_str());
        let cut: usize = if plain.len() < 300 {
            plain.len()
        } else {
            300
        };
        let content = chars_to_string_range(&plain, 0, cut);
        assert(plain@.subrange(0, cut as int) =~= plain@.take(cut as int));
        r.push(NoteEntry {
            title: note.title.clone(),
            path: note.path.clone(),
            tags: clone_strings(&note.tags),
            content,
            mtime: note_mtime_secs(note),
        });
        i += 1;
    }
    r
}


// ─── Laws of the offline search ─────────────────────────────────────────────

/// The hit positions below `b` are positions below `b` whose entries score above zero.
proof fn lemma_hit_positions(ns: Seq<NoteEntry>, qts: Seq<Seq<char>>, b: nat)
    ensures
        forall|k: int|
            0 <= k < hit_positions(ns, qts, b).len() ==> 0 <= #[trigger] hit_positions(ns, qts, b)[k] < b
                && entry_score(ns[hit_positions(ns, qts, b)[k]], qts) > 0,
    decreases b,
{
    if b > 0 {
        lemma_hit_positions(ns, qts, (b - 1) as nat);
        let prev = hit_positions(ns, qts, (b - 1) as nat);
        assert forall|k: int| 0 <= k < hit_positions(ns, qts, b).len() implies 0 <= #[trigger] hit_positions(
            ns,
            qts,
            b,
        )[k] < b && entry_score(ns[hit_positions(ns, qts, b)[k]], qts) > 0 by {
            if k < prev.len() {
                assert(hit_positions(ns, qts, b)[k] == prev[k]);
            }
        }
    }
}

/// Some query token lies in the title, the tags or the content of `e`.
pub open spec fn holds_token(e: NoteEntry, qts: Seq<Seq<char>>) -> bool {
    exists|j: int| 0 <= j < qts.len() && field_count(e, #[trigger] qts[j]) > 0
}

/// Every result of the offline search is an entry of the index that holds one of the
/// query tokens in its title, its tags or its content.
pub proof fn lemma_results_hold_a_token(ns: Seq<NoteEntry>, qts: Seq<Seq<char>>, limit: nat, r: Seq<OfflineHit>)
    requires
        results_ok(ns, qts, limit, r),
    ensures
        forall|k: int|
            #![trigger r[k]]
            0 <= k < r.len() ==> exists|x: int|
                #![trigger ns[x]]
                0 <= x < ns.len() && hit_ok(r[k], ns[x], qts) && holds_token(ns[x], qts),
{
    let hits = hit_positions(ns, qts, ns.len());
    let keys = hits.map_values(|x: int| hit_key(ns[x], qts));
    let ord = choose|ord: Seq<usize>|
        #[trigger] is_permutation(ord, hits.len()) && newest_first(ord, keys) && r.len() == (if limit < hits.len() {
            limit
        } else {
            hits.len()
        }) && forall|k: int| 0 <= k < r.len() ==> hit_ok(#[trigger] r[k], ns[hits[ord[k] as int]], qts);
    lemma_hit_positions(ns, qts, ns.len());
    assert forall|k: int| #![trigger r[k]] 0 <= k < r.len() implies exists|x: int|
        #![trigger ns[x]]
        0 <= x < ns.len() && hit_ok(r[k], ns[x], qts) && holds_token(ns[x], qts) by {
        assert(ord[k] < hits.len());
        let x = hits[ord[k] as int];
        assert(0 <= x < ns.len() && entry_score(ns[x], qts) > 0);
        lemma_score(ns[x], qts);
        assert(hit_ok(r[k], ns[x], qts));
        assert(holds_token(ns[x], qts));
    }
}

/// Adding the same positions twice adds nothing the first time did not.
pub proof fn lemma_union_idempotent(s: Set<int>, cap: nat, indices: Seq<usize>)
    ensures
        ({
            let add = Set::new(|i: int| i < cap && exists|k: int| 0 <= k < indices.len() && indices[k] == i);
            s + add + add == s + add
        }),
{
    let add = Set::new(|i: int| i < cap && exists|k: int| 0 <= k < indices.len() && indices[k] == i);
    assert(s + add + add =~= s + add);
}

} // verus!
