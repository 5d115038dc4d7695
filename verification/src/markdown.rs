//! Markdown processing: frontmatter, wiki links, asset paths, headings with anchors,
//! Mermaid blocks and tags.
//!
//! The Markdown grammar itself is parsed by `pulldown-cmark`; what this module does
//! around the parser (the link syntax of the vault, the rewriting of asset paths,
//! the table of contents and the rendering of headings and code blocks) is proved
//! against the specifications below.
use vstd::prelude::*;
use pulldown_cmark::CodeBlockKind::Fenced;
use pulldown_cmark::Event::{End, Start, Text};
use pulldown_cmark::{html, Options, Parser, Tag, TagEnd};
use self::MdKind::{CodeEnd, CodeStart, HeadingEnd, HeadingStart, Other};
use crate::config::views;
use crate::domain::{Frontmatter, TocItem};
use crate::tags::{extract_tags, note_tags};
use crate::text::{
    code_escape_spec, decimal, html_escape_spec, push_code_escaped, push_decimal, push_html_escaped,
    push_str, spec_is_alphanumeric, str_eq, str_to_chars, trim_char_end, trim_char_start,
    is_alphanumeric, is_ws, is_whitespace, chars_to_string_range, trim_ws, seq_ends_with,
    seq_starts_with, spec_to_lowercase, to_lowercase, trimmed_string, ends_with, starts_with,
    push_chars, contains_text, occurs_at,
};

verus! {

// ─── Percent-encoding ────────────────────────────────────────────────────────

/// The UTF-8 encoding of a character.
pub open spec fn utf8_bytes(c: char) -> Seq<u8> {
    let v = c as int;
    if v < 0x80 {
        seq![v as u8]
    } else if v < 0x800 {
        seq![(0xC0 + v / 64) as u8, (0x80 + v % 64) as u8]
    } else if v < 0x10000 {
        seq![(0xE0 + v / 4096) as u8, (0x80 + (v / 64) % 64) as u8, (0x80 + v % 64) as u8]
    } else {
        seq![
            (0xF0 + v / 262144) as u8,
            (0x80 + (v / 4096) % 64) as u8,
            (0x80 + (v / 64) % 64) as u8,
            (0x80 + v % 64) as u8,
        ]
    }
}

/// An upper-case hexadecimal digit.
pub open spec fn hex_upper(d: int) -> char {
    if d < 10 {
        ('0' as int + d) as char
    } else {
        ('A' as int + d - 10) as char
    }
}

/// One byte percent-encoded: ASCII letters and digits stay, every other byte becomes
/// `%` and two upper-case hex digits.
pub open spec fn pct_byte(b: u8) -> Seq<char> {
    if (0x30 <= b <= 0x39) || (0x41 <= b <= 0x5A) || (0x61 <= b <= 0x7A) {
        seq![b as char]
    } else {
        seq!['%', hex_upper(b as int / 16), hex_upper(b as int % 16)]
    }
}

/// A byte sequence percent-encoded.
pub open spec fn pct_bytes(bs: Seq<u8>) -> Seq<char>
    decreases bs.len(),
{
    if bs.len() == 0 {
        Seq::empty()
    } else {
        pct_bytes(bs.drop_last()) + pct_byte(bs.last())
    }
}

/// A string percent-encoded byte by byte over its UTF-8 encoding.
pub open spec fn pct_encode(s: Seq<char>) -> Seq<char>
    decreases s.len(),
{
    if s.len() == 0 {
        Seq::empty()
    } else {
        pct_encode(s.drop_last()) + pct_bytes(utf8_bytes(s.last()))
    }
}

/// Calls `percent_encoding::utf8_percent_encode` with the `NON_ALPHANUMERIC` set and
/// collects the result. The crate encodes every byte of the UTF-8 text that is not an
/// ASCII letter or digit as `%` followed by two upper-case hex digits, and copies the
/// other bytes.
#[verifier::external_body]
pub(crate) fn percent_encode(s: &str) -> (r: String)
    ensures
        r@ == pct_encode(s@),
{
    percent_encoding::utf8_percent_encode(s, percent_encoding::NON_ALPHANUMERIC).to_string()
}

// ─── Parser events ───────────────────────────────────────────────────────────

/// What a parser event is, as far as the rendering below distinguishes events.
pub enum MdKind {
    /// Start of a heading of the given level (1 to 6).
    HeadingStart(u8),
    /// End of a heading of the given level.
    HeadingEnd(u8),
    /// Start of a code block with its language (empty for indented blocks).
    CodeStart(String),
    /// End of a code block.
    CodeEnd,
    /// A text node.
    Text(String),
    /// Any other event.
    Other,
}

/// A parser event with the HTML that `pulldown-cmark` renders for it alone.
pub struct MdEvent {
    pub kind: MdKind,
    pub html: String,
}

/// The events that `pulldown-cmark` produces for a Markdown text (with tables,
/// strikethrough and task lists enabled), each with its HTML rendered on its own.
pub uninterp spec fn spec_markdown_events(s: Seq<char>) -> Seq<MdEvent>;

/// The level of the heading open before position `i`: the last heading event before
/// `i` is the start of a heading of that level (`None` when it is an end, or there is
/// none).
pub open spec fn open_heading(evs: Seq<MdEvent>, i: int) -> Option<u8>
    decreases i,
{
    if i <= 0 || i > evs.len() {
        None
    } else {
        match evs[i - 1].kind {
            MdKind::HeadingStart(l) => Some(l),
            MdKind::HeadingEnd(_) => None,
            _ => open_heading(evs, i - 1),
        }
    }
}

/// Headings in an event stream are well formed: levels are 1 to 6, a heading starts
/// only where none is open, and each heading end closes the open heading of its level.
pub open spec fn headings_well_formed(evs: Seq<MdEvent>) -> bool {
    forall|i: int|
        0 <= i < evs.len() ==> match (#[trigger] evs[i]).kind {
            MdKind::HeadingStart(l) => 1 <= l <= 6 && open_heading(evs, i) is None,
            MdKind::HeadingEnd(l) => 1 <= l <= 6 && open_heading(evs, i) == Some(l),
            _ => true,
        }
}

/// Calls `pulldown_cmark::Parser::new_ext` with tables, strikethrough and task lists
/// enabled, and `pulldown_cmark::html::push_html` on each event alone. The result is a
/// function of the text, named `spec_markdown_events`. The source shows that heading
/// levels are `HeadingLevel` values 1 to 6, and that a heading is inline content between
/// a start and an end event of the same level, never inside another heading.
#[verifier::external_body]
fn markdown_events(s: &str) -> (r: Vec<MdEvent>)
    ensures
        r@ == spec_markdown_events(s@),
        headings_well_formed(r@),
{
    let mut out = Vec::new();
    for ev in Parser::new_ext(s, Options::ENABLE_TABLES | Options::ENABLE_STRIKETHROUGH | Options::ENABLE_TASKLISTS) {
        let mut h = String::new();
        html::push_html(&mut h, std::iter::once(ev.clone()));
        out.push(MdEvent { html: h, kind: match ev {
            Start(Tag::Heading { level, .. }) => HeadingStart(level as u8),
            End(TagEnd::Heading(level)) => HeadingEnd(level as u8),
            Start(Tag::CodeBlock(Fenced(l))) => CodeStart(l.to_string()),
            Start(Tag::CodeBlock(_)) => CodeStart(String::new()),
            End(TagEnd::CodeBlock) => CodeEnd,
            Text(t) => MdKind::Text(t.to_string()),
            _ => Other,
        } });
    }
    out
}

// ─── Heading anchors ─────────────────────────────────────────────────────────

/// A heading character as it appears in the anchor: letters, digits, `-` and `_` stay,
/// anything else becomes `-`.
pub open spec fn anchor_char(c: char) -> char {
    if spec_is_alphanumeric(c) || c == '-' || c == '_' {
        c
    } else {
        '-'
    }
}

/// The anchor id of the `counter`-th heading with text `text`: the sanitised text
/// without leading and trailing `-`, then `-` and the counter; `heading-` and the
/// counter when nothing is left.
pub open spec fn heading_id_spec(text: Seq<char>, counter: nat) -> Seq<char> {
    let s = trim_char_end(trim_char_start(text.map_values(|c: char| anchor_char(c)), '-'), '-');
    if s.len() == 0 {
        "heading-"@ + decimal(counter)
    } else {
        s + "-"@ + decimal(counter)
    }
}

/// The Markdown processor.
pub struct MarkdownProcessor;

impl MarkdownProcessor {
    /// Escapes `&`, `<`, `>` and `"` for HTML text and attributes.
    pub fn html_escape(s: &str) -> (r: String)
        ensures
            r@ == html_escape_spec(s@),
    {
        crate::text::html_escape(s)
    }

    /// The anchor id of a heading.
    pub fn generate_heading_id(text: &str, counter: usize) -> (id: String)
        ensures
            id@ == heading_id_spec(text@, counter as nat),
    {
        let chars = str_to_chars(text);
        let ghost mapped = text@.map_values(|c: char| anchor_char(c));
        let mut m: Vec<char> = Vec::new();
        let mut i: usize = 0;
        while i < chars.len()
            invariant
                i <= chars@.len(),
                chars@ == text@,
                mapped == text@.map_values(|c: char| anchor_char(c)),
                m@ == mapped.take(i as int),
            decreases chars@.len() - i,
        {
            let c = chars[i];
            let keep = is_alphanumeric(c) || c == '-' || c == '_';
            if keep {
                m.push(c);
            } else {
                m.push('-');
            }
            i += 1;
            assert(m@ =~= mapped.take(i as int));
        }
        assert(m@ =~= mapped);
        let mut lo: usize = 0;
        while lo < m.len() && m[lo] == '-'
            invariant
                lo <= m@.len(),
                trim_char_start(m@, '-') == trim_char_start(m@.skip(lo as int), '-'),
            decreases m@.len() - lo,
        {
            assert(m@.skip(lo as int).drop_first() =~= m@.skip(lo + 1));
            lo += 1;
        }
        assert(trim_char_start(m@.skip(lo as int), '-') == m@.skip(lo as int));
        let mut hi: usize = m.len();
        while hi > lo && m[hi - 1] == '-'
            invariant
                lo <= hi <= m@.len(),
                trim_char_end(m@.skip(lo as int), '-') == trim_char_end(m@.subrange(lo as int, hi as int), '-'),
            decreases hi,
        {
            assert(m@.subrange(lo as int, hi as int).drop_last() =~= m@.subrange(lo as int, hi - 1));
            hi -= 1;
        }
        assert(m@.skip(lo as int) =~= m@.subrange(lo as int, m@.len() as int));
        let ghost core = m@.subrange(lo as int, hi as int);
        assert(trim_char_end(core, '-') == core);
        let mut id = String::new();
        if lo == hi {
            push_str(&mut id, "heading-");
            push_decimal(&mut id, counter as u128);
            assert(core.len() == 0);
        } else {
            let mut k = lo;
            while k < hi
                invariant
                    lo <= k <= hi <= m@.len(),
                    id@ == m@.subrange(lo as int, k as int),
                decreases hi - k,
            {
                id.push(m[k]);
                k += 1;
                assert(id@ =~= m@.subrange(lo as int, k as int));
            }
            push_str(&mut id, "-");
            push_decimal(&mut id, counter as u128);
        }
        id
    }
}

// ─── Rendering ───────────────────────────────────────────────────────────────

/// A table of contents entry taken by its view: level, text and anchor id.
pub open spec fn toc_view(t: TocItem) -> (u8, Seq<char>, Seq<char>) {
    (t.level, t.text@, t.id@)
}

/// The state of the renderer: HTML so far, table of contents so far, the open heading
/// (its start level and text), the number of headings closed, and the open code block
/// (its language and text).
pub type RenderState = (
    Seq<char>,
    Seq<(u8, Seq<char>, Seq<char>)>,
    Option<(u8, Seq<char>)>,
    nat,
    Option<(Seq<char>, Seq<char>)>,
);

/// The HTML of a closed heading.
pub open spec fn heading_html(level: u8, id: Seq<char>, text: Seq<char>) -> Seq<char> {
    "<h"@ + decimal(level as nat) + " id=\""@ + id + "\">"@ + html_escape_spec(text) + "</h"@ + decimal(
        level as nat,
    ) + ">\n"@
}

/// The HTML of a closed code block: a `mermaid` block becomes a `div` for the diagram
/// script, any other a `pre`/`code` pair with a language class when there is a language.
pub open spec fn code_html(lang: Seq<char>, text: Seq<char>) -> Seq<char> {
    if lang == "mermaid"@ {
        "<div class=\"mermaid\">"@ + code_escape_spec(text) + "</div>\n"@
    } else {
        "<pre><code"@ + (if lang.len() > 0 {
            " class=\"language-"@ + lang + "\""@
        } else {
            Seq::empty()
        }) + ">"@ + code_escape_spec(text) + "</code></pre>\n"@
    }
}

/// One step of the renderer.
pub open spec fn render_step(st: RenderState, ev: MdEvent) -> RenderState {
    let (html, toc, heading, counter, code) = st;
    match ev.kind {
        MdKind::HeadingStart(l) => (html, toc, Some((l, Seq::empty())), counter, code),
        MdKind::Text(t) => {
            if heading is Some {
                (html, toc, Some((heading.unwrap().0, heading.unwrap().1 + t@)), counter, code)
            } else if code is Some {
                (html, toc, heading, counter, Some((code.unwrap().0, code.unwrap().1 + t@)))
            } else {
                (html + ev.html@, toc, heading, counter, code)
            }
        },
        MdKind::HeadingEnd(l) => {
            if heading is Some {
                let n = counter + 1;
                let text = heading.unwrap().1;
                let id = heading_id_spec(text, n);
                (html + heading_html(l, id, text), toc.push((heading.unwrap().0, text, id)), None, n, code)
            } else if code is None {
                (html + ev.html@, toc, heading, counter, code)
            } else {
                st
            }
        },
        MdKind::CodeStart(lang) => (html, toc, heading, counter, Some((lang@, Seq::empty()))),
        MdKind::CodeEnd => {
            if code is Some {
                (html + code_html(code.unwrap().0, code.unwrap().1), toc, heading, counter, None)
            } else if heading is None {
                (html + ev.html@, toc, heading, counter, code)
            } else {
                st
            }
        },
        MdKind::Other => {
            if heading is None && code is None {
                (html + ev.html@, toc, heading, counter, code)
            } else {
                st
            }
        },
    }
}

/// The renderer's state after the first `n` events.
pub open spec fn render_upto(evs: Seq<MdEvent>, n: nat) -> RenderState
    decreases n,
{
    if n == 0 {
        (Seq::empty(), Seq::empty(), None, 0, None)
    } else {
        render_step(render_upto(evs, (n - 1) as nat), evs[n - 1])
    }
}

/// The renderer's state, held in executable form.
struct Renderer {
    out: String,
    toc: Vec<TocItem>,
    in_heading: bool,
    heading_level: u8,
    heading_text: String,
    counter: usize,
    in_code: bool,
    lang: String,
    code_text: String,
}

impl Renderer {
    spec fn state(&self) -> RenderState {
        (
            self.out@,
            self.toc@.map_values(|t: TocItem| toc_view(t)),
            if self.in_heading {
                Some((self.heading_level, self.heading_text@))
            } else {
                None
            },
            self.counter as nat,
            if self.in_code {
                Some((self.lang@, self.code_text@))
            } else {
                None
            },
        )
    }

    fn close_heading(&mut self, l: u8)
        requires
            old(self).in_heading,
            old(self).counter < usize::MAX,
        ensures
            ({
                let n = old(self).counter + 1;
                let text = old(self).heading_text@;
                let id = heading_id_spec(text, n as nat);
                &&& final(self).out@ == old(self).out@ + heading_html(l, id, text)
                &&& final(self).toc@.map_values(|t: TocItem| toc_view(t)) == old(self).toc@.map_values(
                    |t: TocItem| toc_view(t),
                ).push((old(self).heading_level, text, id))
                &&& final(self).counter == n
                &&& !final(self).in_heading
                &&& final(self).in_code == old(self).in_code
                &&& final(self).lang == old(self).lang
                &&& final(self).code_text == old(self).code_text
            }),
    {
        let ghost tv = self.toc@.map_values(|t: TocItem| toc_view(t));
        self.counter = self.counter + 1;
        let id = MarkdownProcessor::generate_heading_id(self.heading_text.as_str(), self.counter);
        push_str(&mut self.out, "<h");
        push_decimal(&mut self.out, l as u128);
        push_str(&mut self.out, " id=\"");
        push_str(&mut self.out, id.as_str());
        push_str(&mut self.out, "\">");
        let hv = str_to_chars(self.heading_text.as_str());
        push_html_escaped(&mut self.out, &hv, 0, hv.len());
        push_str(&mut self.out, "</h");
        push_decimal(&mut self.out, l as u128);
        push_str(&mut self.out, ">\n");
        proof {
            assert(hv@.subrange(0, hv@.len() as int) =~= self.heading_text@);
        }
        let item = TocItem { level: self.heading_level, text: self.heading_text.clone(), id };
        self.toc.push(item);
        proof {
            assert(self.toc@.map_values(|t: TocItem| toc_view(t)) =~= tv.push(toc_view(item)));
        }
        self.in_heading = false;
    }

    fn close_code(&mut self)
        requires
            old(self).in_code,
        ensures
            final(self).out@ == old(self).out@ + code_html(old(self).lang@, old(self).code_text@),
            final(self).toc == old(self).toc,
            final(self).counter == old(self).counter,
            final(self).in_heading == old(self).in_heading,
            final(self).heading_level == old(self).heading_level,
            final(self).heading_text == old(self).heading_text,
            !final(self).in_code,
    {
        let cv = str_to_chars(self.code_text.as_str());
        if str_eq(self.lang.as_str(), "mermaid") {
            push_str(&mut self.out, "<div class=\"mermaid\">");
            push_code_escaped(&mut self.out, &cv);
            push_str(&mut self.out, "</div>\n");
        } else {
            push_str(&mut self.out, "<pre><code");
            if self.lang.as_str().unicode_len() > 0 {
                push_str(&mut self.out, " class=\"language-");
                push_str(&mut self.out, self.lang.as_str());
                push_str(&mut self.out, "\"");
            }
            push_str(&mut self.out, ">");
            push_code_escaped(&mut self.out, &cv);
            push_str(&mut self.out, "</code></pre>\n");
        }
        self.in_code = false;
    }

    fn step(&mut self, ev: &MdEvent)
        requires
            old(self).counter < usize::MAX,
        ensures
            final(self).state() == render_step(old(self).state(), *ev),
            final(self).counter <= old(self).counter + 1,
    {
        match &ev.kind {
            MdKind::HeadingStart(l) => {
                self.in_heading = true;
                self.heading_level = *l;
                self.heading_text = String::new();
            },
            MdKind::Text(t) => {
                if self.in_heading {
                    push_str(&mut self.heading_text, t.as_str());
                } else if self.in_code {
                    push_str(&mut self.code_text, t.as_str());
                } else {
                    push_str(&mut self.out, ev.html.as_str());
                }
            },
            MdKind::HeadingEnd(l) => {
                if self.in_heading {
                    self.close_heading(*l);
                } else if !self.in_code {
                    push_str(&mut self.out, ev.html.as_str());
                }
            },
            MdKind::CodeStart(l) => {
                self.in_code = true;
                self.lang = l.clone();
                self.code_text = String::new();
            },
            MdKind::CodeEnd => {
                if self.in_code {
                    self.close_code();
                } else if !self.in_heading {
                    push_str(&mut self.out, ev.html.as_str());
                }
            },
            MdKind::Other => {
                if !self.in_heading && !self.in_code {
                    push_str(&mut self.out, ev.html.as_str());
                }
            },
        }
    }
}

/// Renders parser events to HTML and a table of contents.
///
/// Headings get an anchor id (see `heading_id_spec`) and their text HTML-escaped;
/// Mermaid code blocks become diagram `div`s and other code blocks `pre`/`code` pairs;
/// every other event outside a heading or code block contributes the HTML that
/// `pulldown-cmark` renders for it. The table of contents lists each heading with the
/// level of its start event, its text and its anchor.
pub fn render_events(events: &Vec<MdEvent>) -> (r: (String, Vec<TocItem>))
    ensures
        r.0@ == render_upto(events@, events@.len()).0,
        r.1@.map_values(|t: TocItem| toc_view(t)) == render_upto(events@, events@.len()).1,
{
    let mut rd = Renderer {
        out: String::new(),
        toc: Vec::new(),
        in_heading: false,
        heading_level: 0,
        heading_text: String::new(),
        counter: 0,
        in_code: false,
        lang: String::new(),
        code_text: String::new(),
    };
    proof {
        assert(rd.state() =~= render_upto(events@, 0));
    }
    let mut i: usize = 0;
    while i < events.len()
        invariant
            i <= events@.len(),
            rd.counter <= i,
            rd.state() == render_upto(events@, i as nat),
        decreases events@.len() - i,
    {
        rd.step(&events[i]);
        i += 1;
    }
    (rd.out, rd.toc)
}

// ─── Frontmatter ─────────────────────────────────────────────────────────────

/// `s[a..p]` is whitespace ending with a line feed: a match of `\s*\r?\n` at `a`.
pub open spec fn ws_span(s: Seq<char>, a: int, p: int) -> bool {
    &&& 0 <= a < p <= s.len()
    &&& s[p - 1] == '\n'
    &&& forall|k: int| a <= k < p ==> is_ws(#[trigger] s[k])
}

/// `\s*\r?\n` matches at `a`.
pub open spec fn has_ws_span(s: Seq<char>, a: int) -> bool {
    exists|p: int| #[trigger] ws_span(s, a, p)
}

/// The end of the longest match of `\s*\r?\n` at `a`.
pub open spec fn longest_ws_span(s: Seq<char>, a: int) -> int {
    choose|p: int| ws_span(s, a, p) && forall|p2: int| #[trigger] ws_span(s, a, p2) ==> p2 <= p
}

/// `s[i..i + 3]` is `---`.
pub open spec fn dashes_at(s: Seq<char>, i: int) -> bool {
    0 <= i && i + 3 <= s.len() && s[i] == '-' && s[i + 1] == '-' && s[i + 2] == '-'
}

/// Whether `v[i..i + 3]` is `---`.
fn has_dashes(v: &Vec<char>, i: usize) -> (b: bool)
    ensures
        b == dashes_at(v@, i as int),
{
    i < v.len() && v.len() - i >= 3 && v[i] == '-' && v[i + 1] == '-' && v[i + 2] == '-'
}

/// Where the text after a closing delimiter `\r?\n---\s*\r?\n` at `q` starts, if
/// such a delimiter is at `q`.
#[verifier::opaque]
pub open spec fn close_end(s: Seq<char>, q: int) -> Option<int> {
    let r = if 0 <= q && q + 1 < s.len() && s[q] == '\r' && s[q + 1] == '\n' {
        q + 2
    } else if 0 <= q < s.len() && s[q] == '\n' {
        q + 1
    } else {
        -1
    };
    if r >= 0 && dashes_at(s, r) && has_ws_span(s, r + 3) {
        Some(longest_ws_span(s, r + 3))
    } else {
        None
    }
}

/// `p` can end the opening delimiter `---\s*\r?\n`, with a closing delimiter after it.
pub open spec fn open_ok(s: Seq<char>, p: int) -> bool {
    &&& dashes_at(s, 0)
    &&& ws_span(s, 3, p)
    &&& exists|q: int| p <= q && #[trigger] close_end(s, q) is Some
}

/// The split of a note into YAML frontmatter and body, as the pattern
/// `(?s)^---\s*\r?\n(.*?)\r?\n---\s*\r?\n(.*)$` finds it: the opening delimiter is
/// taken as long as possible, the frontmatter as short as possible, the whitespace of
/// the closing delimiter as long as possible. `None` when the pattern does not match.
pub open spec fn frontmatter_split(s: Seq<char>) -> Option<(Seq<char>, Seq<char>)> {
    if exists|p: int| #[trigger] open_ok(s, p) {
        let p0 = choose|p: int| open_ok(s, p) && forall|p2: int| #[trigger] open_ok(s, p2) ==> p2 <= p;
        let q0 = choose|q: int|
            p0 <= q && close_end(s, q) is Some && forall|q2: int| p0 <= q2 && #[trigger] close_end(s, q2) is Some ==> q <= q2;
        Some((s.subrange(p0, q0), s.subrange(close_end(s, q0)->0, s.len() as int)))
    } else {
        None
    }
}

proof fn lemma_split_found(s: Seq<char>, p: int, q: int)
    requires
        open_ok(s, p),
        forall|p2: int| #[trigger] open_ok(s, p2) ==> p2 <= p,
        p <= q,
        close_end(s, q) is Some,
        forall|q2: int| p <= q2 < q ==> #[trigger] close_end(s, q2) is None,
    ensures
        frontmatter_split(s) == Some((s.subrange(p, q), s.subrange(close_end(s, q)->0, s.len() as int))),
{
    let p0 = choose|p1: int| open_ok(s, p1) && forall|p2: int| #[trigger] open_ok(s, p2) ==> p2 <= p1;
    assert(p0 == p);
    assert forall|q2: int| p <= q2 && #[trigger] close_end(s, q2) is Some implies q <= q2 by {}
    let q0 = choose|q1: int|
        p <= q1 && close_end(s, q1) is Some && forall|q2: int| p <= q2 && #[trigger] close_end(s, q2) is Some ==> q1 <= q2;
    assert(q0 == q);
}

/// The end of the run of whitespace that starts at `a`.
fn ws_run_end(v: &Vec<char>, a: usize) -> (w: usize)
    requires
        a <= v@.len(),
    ensures
        a <= w <= v@.len(),
        forall|k: int| a <= k < w ==> is_ws(#[trigger] v@[k]),
        w == v@.len() || !is_ws(v@[w as int]),
{
    let mut w = a;
    while w < v.len() && is_whitespace(v[w])
        invariant
            a <= w <= v@.len(),
            forall|k: int| a <= k < w ==> is_ws(#[trigger] v@[k]),
        decreases v@.len() - w,
    {
        w += 1;
    }
    w
}

/// The end of the longest match of `\s*\r?\n` at `a`, if there is a match.
fn longest_span(v: &Vec<char>, a: usize) -> (r: Option<usize>)
    requires
        a <= v@.len(),
    ensures
        r is None <==> !has_ws_span(v@, a as int),
        r matches Some(p) ==> p == longest_ws_span(v@, a as int) && ws_span(v@, a as int, p as int),
{
    let w = ws_run_end(v, a);
    let mut p = w;
    while p > a && v[p - 1] != '\n'
        invariant
            a <= p <= w <= v@.len(),
            forall|p2: int| p < p2 <= w ==> !#[trigger] ws_span(v@, a as int, p2),
        decreases p,
    {
        p -= 1;
    }
    proof {
        assert forall|p2: int| #[trigger] ws_span(v@, a as int, p2) implies p2 <= w by {
            if p2 > w {
                assert(is_ws(v@[w as int]));
            }
        }
    }
    if p > a {
        proof {
            assert(ws_span(v@, a as int, p as int));
            assert forall|p2: int| #[trigger] ws_span(v@, a as int, p2) implies p2 <= p by {}
            let l = longest_ws_span(v@, a as int);
            assert(ws_span(v@, a as int, l) && forall|p2: int| #[trigger] ws_span(v@, a as int, p2) ==> p2 <= l);
        }
        Some(p)
    } else {
        None
    }
}

/// The start of the `---` of a closing delimiter at `q`, if `q` starts a line break.
fn close_start(v: &Vec<char>, q: usize) -> (r: Option<usize>)
    requires
        q <= v@.len(),
    ensures
        r matches Some(x) ==> x as int == (if 0 <= q && q + 1 < v@.len() && v@[q as int] == '\r' && v@[q + 1] == '\n' {
            q + 2
        } else {
            q + 1
        }) && x <= v@.len(),
        r is Some <==> ((q + 1 < v@.len() && v@[q as int] == '\r' && v@[q + 1] == '\n') || (q < v@.len()
            && v@[q as int] == '\n')),
{
    if q < v.len() && v[q] == '\r' && q + 1 < v.len() && v[q + 1] == '\n' {
        Some(q + 2)
    } else if q < v.len() && v[q] == '\n' {
        Some(q + 1)
    } else {
        None
    }
}

/// Where the text after a closing delimiter at `q` starts, if there is one.
#[verifier::rlimit(30)]
fn close_end_at(v: &Vec<char>, q: usize) -> (r: Option<usize>)
    requires
        q <= v@.len(),
    ensures
        r matches Some(e) ==> close_end(v@, q as int) == Some(e as int) && e <= v@.len(),
        r is None ==> close_end(v@, q as int) is None,
{
    let start = close_start(v, q);
    match start {
        None => {
            proof {
                reveal(close_end);
            }
            None
        },
        Some(r) => {
            let m = has_dashes(v, r);
            if !m {
                proof {
                    reveal(close_end);
                }
                None
            } else {
                let n = v.len();
                assert(r + 3 <= n);
                let res = longest_span(v, r + 3);
                proof {
                    reveal(close_end);
                }
                res
            }
        },
    }
}

/// `serde_yml::Value`, carried as it is.
#[verifier::external_type_specification]
#[verifier::external_body]
pub struct ExYamlValue(serde_yml::Value);

/// The frontmatter value that `serde_yml::from_str::<serde_yml::Value>` parses out of a
/// YAML text, converted variant by variant (see `yaml_to_frontmatter`), and `Null` where
/// the text does not parse.
pub uninterp spec fn spec_yaml_value(text: Seq<char>) -> Frontmatter;

/// Converts a `serde_yml::Value` into a `Frontmatter`, one variant for each variant:
/// numbers keep their text (`Number`'s `Display`), mapping keys become strings, and a
/// tagged value keeps its tag's text. It states nothing of its own; `parse_yaml` names
/// the composition.
#[verifier::external_body]
fn yaml_to_frontmatter(v: serde_yml::Value) -> Frontmatter {
    match v {
        serde_yml::Value::Null => Frontmatter::Null,
        serde_yml::Value::Bool(b) => Frontmatter::Bool(b),
        serde_yml::Value::Number(n) => Frontmatter::Number(n.to_string()),
        serde_yml::Value::String(s) => Frontmatter::Str(s),
        serde_yml::Value::Sequence(items) => Frontmatter::Sequence(items.into_iter().map(yaml_to_frontmatter).collect()),
        serde_yml::Value::Mapping(m) => Frontmatter::Mapping(
            m.into_iter().map(|(k, v)| (Frontmatter::Str(k), yaml_to_frontmatter(v))).collect(),
        ),
        serde_yml::Value::Tagged(t) => Frontmatter::Tagged(t.tag().to_string(), Box::new(yaml_to_frontmatter(t.value().clone()))),
    }
}

/// Calls `serde_yml::from_str::<serde_yml::Value>` on a YAML text and converts the value
/// (see `yaml_to_frontmatter`); a text that does not parse gives `Null`. The parse is a
/// function of the text, named `spec_yaml_value`.
#[verifier::external_body]
fn parse_yaml(text: &str) -> (r: Frontmatter)
    ensures
        r == spec_yaml_value(text@),
{
    match serde_yml::from_str::<serde_yml::Value>(text) {
        Ok(v) => yaml_to_frontmatter(v),
        Err(_) => Frontmatter::Null,
    }
}

/// The frontmatter of a note: the parsed YAML of its frontmatter block, `Null` when it
/// has none.
pub open spec fn note_frontmatter(content: Seq<char>) -> Frontmatter {
    match frontmatter_split(content) {
        Some((yaml, _)) => spec_yaml_value(yaml),
        None => Frontmatter::Null,
    }
}

/// What processing a note yields with the frontmatter `frontmatter`: the HTML and the
/// table of contents that the renderer builds over the parser's events for the
/// rewritten body, the notes the body links to, and the tags of the frontmatter and the
/// body. The table of contents has one entry per heading, in order; each has a level
/// from 1 to 6 and the anchor id of its place in the order, its heading tag stands in
/// the HTML, and no two ids are equal.
pub open spec fn process_spec(
    content: Seq<char>,
    frontmatter: Frontmatter,
    r: (String, Vec<String>, Vec<String>, Frontmatter, Vec<TocItem>),
) -> bool {
    let body = note_body(content);
    let evs = spec_markdown_events(rewritten_markdown(body));
    let st = render_upto(evs, evs.len());
    &&& r.0@ == st.0
    &&& views(r.1@) == body_links(body)
    &&& views(r.2@) == note_tags(body, frontmatter)
    &&& r.4@.map_values(|t: TocItem| toc_view(t)) == st.1
    &&& st.1.len() == heading_ends(evs, evs.len() as int)
    &&& forall|i: int|
        0 <= i < st.1.len() ==> {
            &&& 1 <= (#[trigger] st.1[i]).0 <= 6
            &&& st.1[i].2 == heading_id_spec(st.1[i].1, (i + 1) as nat)
            &&& contains_text(st.0, heading_html(st.1[i].0, st.1[i].2, st.1[i].1))
        }
    &&& forall|i: int, j: int| 0 <= i < j < st.1.len() ==> (#[trigger] st.1[i]).2 != (#[trigger] st.1[j]).2
}

impl MarkdownProcessor {
    /// Splits a note into its body and the text of its YAML frontmatter (see
    /// `frontmatter_split`); without frontmatter the body is the whole note.
    pub fn extract_frontmatter(content: &str) -> (r: (String, Option<String>))
        ensures
            match frontmatter_split(content@) {
                Some((yaml, body)) => r.0@ == body && (r.1 matches Some(y) && y@ == yaml),
                None => r.0@ == content@ && r.1 is None,
            },
    {
        let v = str_to_chars(content);
        let none_found = (content.to_owned(), None);
        if !has_dashes(&v, 0) {
            return none_found;
        }
        let w = ws_run_end(&v, 3);
        let mut p = w;
        while p > 3
            invariant
                3 <= p <= w <= v@.len(),
                v@ == content@,
                dashes_at(v@, 0),
                forall|k: int| 3 <= k < w ==> is_ws(#[trigger] v@[k]),
                w == v@.len() || !is_ws(v@[w as int]),
                forall|p2: int| p < p2 ==> !#[trigger] open_ok(v@, p2),
            decreases p,
        {
            if v[p - 1] == '\n' {
                let mut q = p;
                while q < v.len()
                    invariant
                        3 < p <= q <= v@.len(),
                        p <= w <= v@.len(),
                        v@ == content@,
                        dashes_at(v@, 0),
                        v@[p - 1] == '\n',
                        forall|k: int| 3 <= k < w ==> is_ws(#[trigger] v@[k]),
                        forall|p2: int| p < p2 ==> !#[trigger] open_ok(v@, p2),
                        forall|q2: int| p <= q2 < q ==> #[trigger] close_end(v@, q2) is None,
                    decreases v@.len() - q,
                {
                    match close_end_at(&v, q) {
                        Some(e) => {
                            proof {
                                assert(ws_span(v@, 3, p as int));
                                assert(open_ok(v@, p as int));
                                lemma_split_found(v@, p as int, q as int);
                            }
                            let yaml = chars_to_string_range(&v, p, q);
                            let body = chars_to_string_range(&v, e, v.len());
                            return (body, Some(yaml));
                        },
                        None => {},
                    }
                    q += 1;
                }
                proof {
                    reveal(close_end);
                    assert forall|q2: int| p <= q2 implies #[trigger] close_end(v@, q2) is None by {}
                }
            }
            proof {
                assert(!open_ok(v@, p as int));
            }
            p -= 1;
        }
        proof {
            assert forall|p2: int| !#[trigger] open_ok(v@, p2) by {
                if open_ok(v@, p2) && p2 > w {
                    assert(is_ws(v@[w as int]));
                }
            }
        }
        none_found
    }
}

// ─── Link syntax ─────────────────────────────────────────────────────────────

/// The four rewriting passes applied to the body before Markdown parsing, in order.
pub enum LinkPass {
    /// `![[target|alt]]`: embedded images and files.
    ImageWiki,
    /// `[[target|label]]`: links between notes.
    Wiki,
    /// `![alt](path)`: Markdown images.
    MdImage,
    /// `[text](path)`: Markdown links.
    MdLink,
}

/// A match: start and end of the first group, the second group if it took part, and
/// the end of the whole match.
pub type Hit = (int, int, Option<(int, int)>, int);

/// The first `]]` at or after `j` before the end of the line.
pub open spec fn close2(s: Seq<char>, j: int) -> Option<int>
    decreases s.len() - j,
{
    if j < 0 || j >= s.len() {
        None
    } else if j + 1 < s.len() && s[j] == ']' && s[j + 1] == ']' {
        Some(j)
    } else if s[j] == '\n' {
        None
    } else {
        close2(s, j + 1)
    }
}

/// The rest of a wiki link whose target has reached `q`: `(.*?)(?:\|(.*?))?\]\]`
/// with the target group as short as possible and the label tried first.
pub open spec fn wiki_scan(s: Seq<char>, q: int) -> Option<(int, Option<(int, int)>, int)>
    decreases s.len() - q,
{
    if q < 0 || q >= s.len() {
        None
    } else if s[q] == '\n' {
        None
    } else if s[q] == '|' && close2(s, q + 1) is Some {
        Some((q, Some((q + 1, close2(s, q + 1)->0)), close2(s, q + 1)->0 + 2))
    } else if q + 1 < s.len() && s[q] == ']' && s[q + 1] == ']' {
        Some((q, None, q + 2))
    } else {
        wiki_scan(s, q + 1)
    }
}

/// The first position at or after `j` that holds `c`.
pub open spec fn first_from(s: Seq<char>, j: int, c: char) -> Option<int>
    decreases s.len() - j,
{
    if j < 0 || j >= s.len() {
        None
    } else if s[j] == c {
        Some(j)
    } else {
        first_from(s, j + 1, c)
    }
}

/// The rest of a Markdown link or image after its `[`: `([^\]]*)\]\(([^)]+)\)`, the
/// text required to be non-empty when `nonempty`.
pub open spec fn md_tail(s: Seq<char>, a: int, nonempty: bool) -> Option<Hit> {
    match first_from(s, a, ']') {
        Some(j) => if (!nonempty || j > a) && j + 1 < s.len() && s[j + 1] == '(' {
            match first_from(s, j + 2, ')') {
                Some(k) => if k > j + 2 {
                    Some((a, j, Some((j + 2, k)), k + 1))
                } else {
                    None
                },
                None => None,
            }
        } else {
            None
        },
        None => None,
    }
}

/// The match of a pass's pattern that starts at `st`, if any.
pub open spec fn match_at(k: LinkPass, s: Seq<char>, st: int) -> Option<Hit> {
    match k {
        LinkPass::ImageWiki => if 0 <= st && st + 3 <= s.len() && s[st] == '!' && s[st + 1] == '['
            && s[st + 2] == '[' {
            match wiki_scan(s, st + 3) {
                Some((e, lab, end)) => Some((st + 3, e, lab, end)),
                None => None,
            }
        } else {
            None
        },
        LinkPass::Wiki => if 0 <= st && st + 2 <= s.len() && s[st] == '[' && s[st + 1] == '[' {
            match wiki_scan(s, st + 2) {
                Some((e, lab, end)) => Some((st + 2, e, lab, end)),
                None => None,
            }
        } else {
            None
        },
        LinkPass::MdImage => if 0 <= st && st + 2 <= s.len() && s[st] == '!' && s[st + 1] == '[' {
            md_tail(s, st + 2, false)
        } else {
            None
        },
        LinkPass::MdLink => if 0 <= st && st + 1 <= s.len() && s[st] == '[' {
            md_tail(s, st + 1, true)
        } else {
            None
        },
    }
}

/// The leftmost match at or after `i`.
pub open spec fn next_match(k: LinkPass, s: Seq<char>, i: int) -> Option<int>
    decreases s.len() - i,
{
    if 0 <= i < s.len() {
        if match_at(k, s, i) is Some {
            Some(i)
        } else {
            next_match(k, s, i + 1)
        }
    } else {
        None
    }
}

/// `p` ends with one of `exts`.
pub open spec fn ends_with_any(p: Seq<char>, exts: Seq<Seq<char>>) -> bool {
    exists|i: int| 0 <= i < exts.len() && seq_ends_with(p, #[trigger] exts[i])
}

/// `p` is relative: it starts neither with `http://`, `https://` nor `/`.
pub open spec fn is_relative(p: Seq<char>) -> bool {
    !seq_starts_with(p, "http://"@) && !seq_starts_with(p, "https://"@) && !(p.len() > 0 && p[0] == '/')
}

/// The extensions of images.
pub open spec fn image_exts() -> Seq<Seq<char>> {
    seq![".png"@, ".jpg"@, ".jpeg"@, ".gif"@, ".svg"@, ".webp"@]
}

/// The extensions of wiki-linked files.
pub open spec fn wiki_file_exts() -> Seq<Seq<char>> {
    seq![".pdf"@, ".PDF"@, ".png"@, ".jpg"@, ".jpeg"@, ".gif"@, ".svg"@, ".webp"@]
}

/// The extensions of Markdown-linked documents.
pub open spec fn doc_exts() -> Seq<Seq<char>> {
    seq![".pdf"@, ".PDF"@, ".doc"@, ".docx"@, ".zip"@, ".rar"@]
}

/// What a match is replaced with, and the note it links to, if any.
///
/// An embedded image becomes a Markdown image on its own paragraph, an embedded file a
/// link, both to `/assets/` and the percent-encoded target. A wiki link to a file links
/// to `/assets/`, one to a note to `/doc/` and records the target. Markdown images and
/// document links with relative paths are pointed at `/assets/`; others are kept with
/// their path trimmed.
pub open spec fn replacement(k: LinkPass, s: Seq<char>, h: Hit) -> (Seq<char>, Option<Seq<char>>) {
    let g1 = s.subrange(h.0, h.1);
    let g2 = match h.2 {
        Some((a, b)) => Some(s.subrange(a, b)),
        None => None,
    };
    match k {
        LinkPass::ImageWiki => {
            let target = trim_ws(g1);
            let alt = match g2 {
                Some(t) => trim_ws(t),
                None => Seq::empty(),
            };
            let url = pct_encode(target);
            if ends_with_any(spec_to_lowercase(target), image_exts()) {
                ("\n\n!["@ + alt + "](/assets/"@ + url + ")\n\n"@, None)
            } else {
                ("["@ + (if alt.len() == 0 {
                    target
                } else {
                    alt
                }) + "](/assets/"@ + url + ")"@, None)
            }
        },
        LinkPass::Wiki => {
            let target = trim_ws(g1);
            let label = match g2 {
                Some(t) => trim_ws(t),
                None => trim_ws(target),
            };
            let url = pct_encode(target);
            if ends_with_any(target, wiki_file_exts()) {
                ("["@ + label + "](/assets/"@ + url + ")"@, None)
            } else {
                ("["@ + label + "](/doc/"@ + url + ")"@, Some(target))
            }
        },
        LinkPass::MdImage => {
            let path = trim_ws(g2->0);
            if is_relative(path) {
                ("!["@ + g1 + "](/assets/"@ + pct_encode(path) + ")"@, None)
            } else {
                ("!["@ + g1 + "]("@ + path + ")"@, None)
            }
        },
        LinkPass::MdLink => {
            let path = trim_ws(g2->0);
            if ends_with_any(path, doc_exts()) && is_relative(path) {
                ("["@ + g1 + "](/assets/"@ + pct_encode(path) + ")"@, None)
            } else {
                ("["@ + g1 + "]("@ + path + ")"@, None)
            }
        },
    }
}

/// An embed `![[target|alt]]` becomes an image exactly when its target, lower-cased,
/// ends with `.png`, `.jpg`, `.jpeg`, `.gif`, `.svg` or `.webp`: the replacement then
/// opens a paragraph with a Markdown image (`\n\n![`), and otherwise it is a link
/// (it opens with `[`).
pub proof fn lemma_embed_is_image_by_extension(s: Seq<char>, h: Hit)
    ensures
        ({
            let target = trim_ws(s.subrange(h.0, h.1));
            let rep = replacement(LinkPass::ImageWiki, s, h).0;
            let exts = seq![".png"@, ".jpg"@, ".jpeg"@, ".gif"@, ".svg"@, ".webp"@];
            &&& (exists|k: int| 0 <= k < 6 && seq_ends_with(spec_to_lowercase(target), #[trigger] exts[k])) ==> seq_starts_with(
                rep,
                "\n\n!["@,
            )
            &&& !(exists|k: int| 0 <= k < 6 && seq_ends_with(spec_to_lowercase(target), #[trigger] exts[k])) ==> rep.len() > 0
                && rep[0] == '['
        }),
{
    reveal_strlit("\n\n![");
    reveal_strlit("[");
    let target = trim_ws(s.subrange(h.0, h.1));
    let exts = seq![".png"@, ".jpg"@, ".jpeg"@, ".gif"@, ".svg"@, ".webp"@];
    assert(image_exts() == exts);
    let rep = replacement(LinkPass::ImageWiki, s, h).0;
    if ends_with_any(spec_to_lowercase(target), image_exts()) {
        assert(rep.take(4) =~= "\n\n!["@);
    } else {
        assert(rep[0] == "["@[0]);
    }
}

pub proof fn lemma_close2(s: Seq<char>, j: int)
    ensures
        close2(s, j) matches Some(c) ==> j <= c && c + 2 <= s.len(),
    decreases s.len() - j,
{
    if 0 <= j < s.len() && !(j + 1 < s.len() && s[j] == ']' && s[j + 1] == ']') && s[j] != '\n' {
        lemma_close2(s, j + 1);
    }
}

pub proof fn lemma_wiki_scan(s: Seq<char>, q: int)
    ensures
        wiki_scan(s, q) matches Some((e, lab, end)) ==> q <= e && e + 2 <= end <= s.len() && (lab matches Some(
            (a, b),
        ) ==> a == e + 1 && a <= b && b + 2 == end),
    decreases s.len() - q,
{
    if 0 <= q < s.len() && s[q] != '\n' {
        lemma_close2(s, q + 1);
        if !(s[q] == '|' && close2(s, q + 1) is Some) && !(q + 1 < s.len() && s[q] == ']' && s[q + 1] == ']') {
            lemma_wiki_scan(s, q + 1);
        }
    }
}

pub proof fn lemma_first_from(s: Seq<char>, j: int, c: char)
    ensures
        first_from(s, j, c) matches Some(x) ==> j <= x < s.len() && s[x] == c,
        first_from(s, j, c) is None && 0 <= j ==> forall|y: int| j <= y < s.len() ==> s[y] != c,
    decreases s.len() - j,
{
    if 0 <= j < s.len() && s[j] != c {
        lemma_first_from(s, j + 1, c);
    }
}

/// A match lies inside the text, after its start, with its groups in order.
pub proof fn lemma_match_bounds(k: LinkPass, s: Seq<char>, st: int)
    ensures
        match_at(k, s, st) matches Some(h) ==> st < h.0 <= h.1 < h.3 <= s.len() && (h.2 matches Some((a, b)) ==> h.1
            < a <= b < h.3),
{
    match k {
        LinkPass::ImageWiki => lemma_wiki_scan(s, st + 3),
        LinkPass::Wiki => lemma_wiki_scan(s, st + 2),
        LinkPass::MdImage => {
            lemma_first_from(s, st + 2, ']');
            if let Some(j) = first_from(s, st + 2, ']') {
                lemma_first_from(s, j + 2, ')');
            }
        },
        LinkPass::MdLink => {
            lemma_first_from(s, st + 1, ']');
            if let Some(j) = first_from(s, st + 1, ']') {
                lemma_first_from(s, j + 2, ')');
            }
        },
    }
}

pub proof fn lemma_next_match(k: LinkPass, s: Seq<char>, i: int)
    ensures
        next_match(k, s, i) matches Some(st) ==> i <= st && match_at(k, s, st) is Some,
        next_match(k, s, i) is None && 0 <= i ==> forall|j: int| i <= j < s.len() ==> #[trigger] match_at(k, s, j) is None,
    decreases s.len() - i,
{
    if 0 <= i < s.len() && match_at(k, s, i) is None {
        lemma_next_match(k, s, i + 1);
    }
}

/// One pass from position `i`: the text with each leftmost match replaced, and the notes
/// that the replaced links point to, in order.
pub open spec fn pass_from(k: LinkPass, s: Seq<char>, i: int) -> (Seq<char>, Seq<Seq<char>>)
    decreases s.len() - i,
{
    if 0 <= i <= s.len() {
        match next_match(k, s, i) {
            None => (s.subrange(i, s.len() as int), Seq::empty()),
            Some(st) => {
                proof {
                    lemma_next_match(k, s, i);
                    lemma_match_bounds(k, s, st);
                }
                let h = match_at(k, s, st)->0;
                let rep = replacement(k, s, h);
                let rest = pass_from(k, s, h.3);
                (
                    s.subrange(i, st) + rep.0 + rest.0,
                    match rep.1 {
                        Some(t) => seq![t] + rest.1,
                        None => rest.1,
                    },
                )
            },
        }
    } else {
        (Seq::empty(), Seq::empty())
    }
}

/// A match with machine-sized positions.
pub type ExecHit = (usize, usize, Option<(usize, usize)>, usize);

/// The match as mathematical positions.
pub open spec fn hit_view(h: ExecHit) -> Hit {
    (
        h.0 as int,
        h.1 as int,
        match h.2 {
            Some((a, b)) => Some((a as int, b as int)),
            None => None,
        },
        h.3 as int,
    )
}

fn close2_exec(v: &Vec<char>, j: usize) -> (r: Option<usize>)
    requires
        j <= v@.len(),
    ensures
        match close2(v@, j as int) {
            Some(c) => r == Some(c as usize),
            None => r is None,
        },
{
    let mut k = j;
    while k < v.len()
        invariant
            j <= k <= v@.len(),
            close2(v@, j as int) == close2(v@, k as int),
        decreases v@.len() - k,
    {
        if k + 1 < v.len() && v[k] == ']' && v[k + 1] == ']' {
            return Some(k);
        }
        if v[k] == '\n' {
            return None;
        }
        k += 1;
    }
    None
}

fn wiki_scan_exec(v: &Vec<char>, q: usize) -> (r: Option<(usize, Option<(usize, usize)>, usize)>)
    requires
        q <= v@.len(),
    ensures
        match wiki_scan(v@, q as int) {
            Some((e, lab, end)) => r matches Some((e2, lab2, end2)) && e2 == e && end2 == end && (match lab {
                Some((a, b)) => lab2 == Some((a as usize, b as usize)),
                None => lab2 is None,
            }),
            None => r is None,
        },
{
    let mut k = q;
    while k < v.len()
        invariant
            q <= k <= v@.len(),
            wiki_scan(v@, q as int) == wiki_scan(v@, k as int),
        decreases v@.len() - k,
    {
        if v[k] == '\n' {
            return None;
        }
        if v[k] == '|' {
            proof {
                lemma_close2(v@, k + 1);
            }
            match close2_exec(v, k + 1) {
                Some(c) => {
                    return Some((k, Some((k + 1, c)), c + 2));
                },
                None => {},
            }
        }
        if k + 1 < v.len() && v[k] == ']' && v[k + 1] == ']' {
            return Some((k, None, k + 2));
        }
        k += 1;
    }
    None
}

pub(crate) fn first_from_exec(v: &Vec<char>, j: usize, c: char) -> (r: Option<usize>)
    requires
        j <= v@.len(),
    ensures
        match first_from(v@, j as int, c) {
            Some(x) => r == Some(x as usize),
            None => r is None,
        },
{
    let mut k = j;
    while k < v.len()
        invariant
            j <= k <= v@.len(),
            first_from(v@, j as int, c) == first_from(v@, k as int, c),
        decreases v@.len() - k,
    {
        if v[k] == c {
            return Some(k);
        }
        k += 1;
    }
    None
}

fn md_tail_exec(v: &Vec<char>, a: usize, nonempty: bool) -> (r: Option<ExecHit>)
    requires
        a <= v@.len(),
    ensures
        match md_tail(v@, a as int, nonempty) {
            Some(h) => r matches Some(h2) && hit_view(h2) == h,
            None => r is None,
        },
{
    let n = v.len();
    proof {
        lemma_first_from(v@, a as int, ']');
    }
    match first_from_exec(v, a, ']') {
        Some(j) => {
            if (!nonempty || j > a) && n - j > 1 && v[j + 1] == '(' {
                proof {
                    lemma_first_from(v@, j + 2, ')');
                }
                match first_from_exec(v, j + 2, ')') {
                    Some(k) => {
                        if k > j + 2 {
                            Some((a, j, Some((j + 2, k)), k + 1))
                        } else {
                            None
                        }
                    },
                    None => None,
                }
            } else {
                None
            }
        },
        None => None,
    }
}

pub(crate) fn match_at_exec(k: &LinkPass, v: &Vec<char>, st: usize) -> (r: Option<ExecHit>)
    requires
        st <= v@.len(),
    ensures
        match match_at(*k, v@, st as int) {
            Some(h) => r matches Some(h2) && hit_view(h2) == h,
            None => r is None,
        },
{
    let n = v.len();
    proof {
        lemma_wiki_scan(v@, st + 3);
        lemma_wiki_scan(v@, st + 2);
    }
    match k {
        LinkPass::ImageWiki => {
            if v.len() - st >= 3 && v[st] == '!' && v[st + 1] == '[' && v[st + 2] == '[' {
                match wiki_scan_exec(v, st + 3) {
                    Some((e, lab, end)) => Some((st + 3, e, lab, end)),
                    None => None,
                }
            } else {
                None
            }
        },
        LinkPass::Wiki => {
            if v.len() - st >= 2 && v[st] == '[' && v[st + 1] == '[' {
                match wiki_scan_exec(v, st + 2) {
                    Some((e, lab, end)) => Some((st + 2, e, lab, end)),
                    None => None,
                }
            } else {
                None
            }
        },
        LinkPass::MdImage => {
            if v.len() - st >= 2 && v[st] == '!' && v[st + 1] == '[' {
                md_tail_exec(v, st + 2, false)
            } else {
                None
            }
        },
        LinkPass::MdLink => {
            if v.len() - st >= 1 && v[st] == '[' {
                md_tail_exec(v, st + 1, true)
            } else {
                None
            }
        },
    }
}

fn next_match_exec(k: &LinkPass, v: &Vec<char>, i: usize) -> (r: Option<(usize, ExecHit)>)
    requires
        i <= v@.len(),
    ensures
        match next_match(*k, v@, i as int) {
            Some(st) => r matches Some((st2, h)) && st2 == st && match_at(*k, v@, st) == Some(hit_view(h)),
            None => r is None,
        },
{
    let mut j = i;
    while j < v.len()
        invariant
            i <= j <= v@.len(),
            next_match(*k, v@, i as int) == next_match(*k, v@, j as int),
        decreases v@.len() - j,
    {
        match match_at_exec(k, v, j) {
            Some(h) => {
                return Some((j, h));
            },
            None => {},
        }
        j += 1;
    }
    None
}

/// Whether `p` ends with the characters of `ext`.
pub(crate) fn ends_with_ext(p: &Vec<char>, ext: &str) -> (b: bool)
    ensures
        b == seq_ends_with(p@, ext@),
{
    let e = str_to_chars(ext);
    ends_with(p, &e)
}

proof fn lemma_ends_with_any(p: Seq<char>, exts: Seq<Seq<char>>, n: int)
    requires
        0 <= n <= exts.len(),
    ensures
        (exists|i: int| 0 <= i < n && seq_ends_with(p, #[trigger] exts[i])) <==> (n > 0 && (exists|i: int|
            0 <= i < n - 1 && seq_ends_with(p, #[trigger] exts[i]) || seq_ends_with(p, exts[n - 1]))),
{
    if n > 0 && seq_ends_with(p, exts[n - 1]) {
        assert(seq_ends_with(p, exts[n - 1]));
    }
}

/// Whether `p` has one of the image extensions.
pub(crate) fn has_image_ext(p: &Vec<char>) -> (b: bool)
    ensures
        b == ends_with_any(p@, image_exts()),
{
    let b = ends_with_ext(p, ".png") || ends_with_ext(p, ".jpg") || ends_with_ext(p, ".jpeg") || ends_with_ext(
        p,
        ".gif",
    ) || ends_with_ext(p, ".svg") || ends_with_ext(p, ".webp");
    proof {
        let e = image_exts();
        assert(e[0] == ".png"@ && e[1] == ".jpg"@ && e[2] == ".jpeg"@ && e[3] == ".gif"@ && e[4] == ".svg"@ && e[5]
            == ".webp"@);
        if b {
            if seq_ends_with(p@, e[0]) {
            } else if seq_ends_with(p@, e[1]) {
            } else if seq_ends_with(p@, e[2]) {
            } else if seq_ends_with(p@, e[3]) {
            } else if seq_ends_with(p@, e[4]) {
            } else {
                assert(seq_ends_with(p@, e[5]));
            }
        } else {
            assert forall|i: int| 0 <= i < e.len() implies !seq_ends_with(p@, #[trigger] e[i]) by {}
        }
    }
    b
}

/// Whether `p` has one of the extensions of wiki-linked files.
fn has_wiki_file_ext(p: &Vec<char>) -> (b: bool)
    ensures
        b == ends_with_any(p@, wiki_file_exts()),
{
    let b = ends_with_ext(p, ".pdf") || ends_with_ext(p, ".PDF") || ends_with_ext(p, ".png") || ends_with_ext(
        p,
        ".jpg",
    ) || ends_with_ext(p, ".jpeg") || ends_with_ext(p, ".gif") || ends_with_ext(p, ".svg") || ends_with_ext(
        p,
        ".webp",
    );
    proof {
        let e = wiki_file_exts();
        assert(e[0] == ".pdf"@ && e[1] == ".PDF"@ && e[2] == ".png"@ && e[3] == ".jpg"@ && e[4] == ".jpeg"@ && e[5]
            == ".gif"@ && e[6] == ".svg"@ && e[7] == ".webp"@);
        if b {
            if seq_ends_with(p@, e[0]) {
            } else if seq_ends_with(p@, e[1]) {
            } else if seq_ends_with(p@, e[2]) {
            } else if seq_ends_with(p@, e[3]) {
            } else if seq_ends_with(p@, e[4]) {
            } else if seq_ends_with(p@, e[5]) {
            } else if seq_ends_with(p@, e[6]) {
            } else {
                assert(seq_ends_with(p@, e[7]));
            }
        } else {
            assert forall|i: int| 0 <= i < e.len() implies !seq_ends_with(p@, #[trigger] e[i]) by {}
        }
    }
    b
}

/// Whether `p` has one of the document extensions.
fn has_doc_ext(p: &Vec<char>) -> (b: bool)
    ensures
        b == ends_with_any(p@, doc_exts()),
{
    let b = ends_with_ext(p, ".pdf") || ends_with_ext(p, ".PDF") || ends_with_ext(p, ".doc") || ends_with_ext(
        p,
        ".docx",
    ) || ends_with_ext(p, ".zip") || ends_with_ext(p, ".rar");
    proof {
        let e = doc_exts();
        assert(e[0] == ".pdf"@ && e[1] == ".PDF"@ && e[2] == ".doc"@ && e[3] == ".docx"@ && e[4] == ".zip"@ && e[5]
            == ".rar"@);
        if b {
            if seq_ends_with(p@, e[0]) {
            } else if seq_ends_with(p@, e[1]) {
            } else if seq_ends_with(p@, e[2]) {
            } else if seq_ends_with(p@, e[3]) {
            } else if seq_ends_with(p@, e[4]) {
            } else {
                assert(seq_ends_with(p@, e[5]));
            }
        } else {
            assert forall|i: int| 0 <= i < e.len() implies !seq_ends_with(p@, #[trigger] e[i]) by {}
        }
    }
    b
}

/// Whether the path is relative (see `is_relative`).
fn relative_path(p: &Vec<char>) -> (b: bool)
    ensures
        b == is_relative(p@),
{
    let http = str_to_chars("http://");
    let https = str_to_chars("https://");
    !starts_with(p, &http) && !starts_with(p, &https) && !(p.len() > 0 && p[0] == '/')
}

fn push_image_wiki(v: &Vec<char>, h: ExecHit, out: &mut String)
    requires
        h.0 <= h.1 <= v@.len(),
        h.2 matches Some((a, b)) ==> a <= b <= v@.len(),
    ensures
        final(out)@ == old(out)@ + replacement(LinkPass::ImageWiki, v@, hit_view(h)).0,
{
    let target = trimmed_string(v, h.0, h.1);
    let alt = match h.2 {
        Some((a, b)) => trimmed_string(v, a, b),
        None => String::new(),
    };
    let url = percent_encode(target.as_str());
    let lower = to_lowercase(target.as_str());
    let lv = str_to_chars(lower.as_str());
    if has_image_ext(&lv) {
        push_str(out, "\n\n![");
        push_str(out, alt.as_str());
        push_str(out, "](/assets/");
        push_str(out, url.as_str());
        push_str(out, ")\n\n");
    } else {
        push_str(out, "[");
        if alt.as_str().unicode_len() == 0 {
            push_str(out, target.as_str());
        } else {
            push_str(out, alt.as_str());
        }
        push_str(out, "](/assets/");
        push_str(out, url.as_str());
        push_str(out, ")");
    }
}

fn push_wiki(v: &Vec<char>, h: ExecHit, out: &mut String, links: &mut Vec<String>)
    requires
        h.0 <= h.1 <= v@.len(),
        h.2 matches Some((a, b)) ==> a <= b <= v@.len(),
    ensures
        final(out)@ == old(out)@ + replacement(LinkPass::Wiki, v@, hit_view(h)).0,
        views(final(links)@) == views(old(links)@) + match replacement(LinkPass::Wiki, v@, hit_view(h)).1 {
            Some(t) => seq![t],
            None => Seq::<Seq<char>>::empty(),
        },
{
    let ghost l0 = links@;
    let target = trimmed_string(v, h.0, h.1);
    let tv = str_to_chars(target.as_str());
    let label = match h.2 {
        Some((a, b)) => trimmed_string(v, a, b),
        None => {
            assert(tv@.subrange(0, tv@.len() as int) =~= tv@);
            trimmed_string(&tv, 0, tv.len())
        },
    };
    let url = percent_encode(target.as_str());
    push_str(out, "[");
    push_str(out, label.as_str());
    if has_wiki_file_ext(&tv) {
        push_str(out, "](/assets/");
        assert(views(links@) =~= views(l0) + Seq::<Seq<char>>::empty());
    } else {
        push_str(out, "](/doc/");
        let t2 = target.clone();
        links.push(t2);
        assert(views(links@) =~= views(l0) + seq![target@]);
    }
    push_str(out, url.as_str());
    push_str(out, ")");
}

fn push_md_image(v: &Vec<char>, h: ExecHit, out: &mut String)
    requires
        h.0 <= h.1 <= v@.len(),
        h.2 matches Some((a, b)) && a <= b <= v@.len(),
    ensures
        final(out)@ == old(out)@ + replacement(LinkPass::MdImage, v@, hit_view(h)).0,
{
    let (a, b) = h.2.unwrap();
    let path = trimmed_string(v, a, b);
    let pv = str_to_chars(path.as_str());
    push_str(out, "![");
    push_chars(out, v, h.0, h.1);
    if relative_path(&pv) {
        push_str(out, "](/assets/");
        let url = percent_encode(path.as_str());
        push_str(out, url.as_str());
    } else {
        push_str(out, "](");
        push_str(out, path.as_str());
    }
    push_str(out, ")");
}

fn push_md_link(v: &Vec<char>, h: ExecHit, out: &mut String)
    requires
        h.0 <= h.1 <= v@.len(),
        h.2 matches Some((a, b)) && a <= b <= v@.len(),
    ensures
        final(out)@ == old(out)@ + replacement(LinkPass::MdLink, v@, hit_view(h)).0,
{
    let (a, b) = h.2.unwrap();
    let path = trimmed_string(v, a, b);
    let pv = str_to_chars(path.as_str());
    push_str(out, "[");
    push_chars(out, v, h.0, h.1);
    if has_doc_ext(&pv) && relative_path(&pv) {
        push_str(out, "](/assets/");
        let url = percent_encode(path.as_str());
        push_str(out, url.as_str());
    } else {
        push_str(out, "](");
        push_str(out, path.as_str());
    }
    push_str(out, ")");
}

/// Appends the replacement of a match and records the note it links to.
fn push_replacement(k: &LinkPass, v: &Vec<char>, h: ExecHit, out: &mut String, links: &mut Vec<String>)
    requires
        h.0 <= h.1 <= v@.len(),
        h.2 matches Some((a, b)) ==> a <= b <= v@.len(),
        (*k is MdImage || *k is MdLink) ==> h.2 is Some,
    ensures
        final(out)@ == old(out)@ + replacement(*k, v@, hit_view(h)).0,
        views(final(links)@) == views(old(links)@) + match replacement(*k, v@, hit_view(h)).1 {
            Some(t) => seq![t],
            None => Seq::<Seq<char>>::empty(),
        },
{
    match k {
        LinkPass::ImageWiki => {
            push_image_wiki(v, h, out);
            assert(views(links@) =~= views(links@) + Seq::<Seq<char>>::empty());
        },
        LinkPass::Wiki => push_wiki(v, h, out, links),
        LinkPass::MdImage => {
            push_md_image(v, h, out);
            assert(views(links@) =~= views(links@) + Seq::<Seq<char>>::empty());
        },
        LinkPass::MdLink => {
            push_md_link(v, h, out);
            assert(views(links@) =~= views(links@) + Seq::<Seq<char>>::empty());
        },
    }
}

/// Runs one rewriting pass over `text` (see `pass_from`): the rewritten text and the
/// notes that the rewritten wiki links point to.
#[verifier::spinoff_prover]
#[verifier::rlimit(30)]
pub fn run_pass(k: &LinkPass, text: &str) -> (r: (String, Vec<String>))
    ensures
        r.0@ == pass_from(*k, text@, 0).0,
        views(r.1@) == pass_from(*k, text@, 0).1,
{
    let v = str_to_chars(text);
    let mut out = String::new();
    let mut links: Vec<String> = Vec::new();
    let mut i: usize = 0;
    assert(views(links@) =~= Seq::<Seq<char>>::empty());
    loop
        invariant
            i <= v@.len(),
            v@ == text@,
            pass_from(*k, v@, 0).0 == out@ + pass_from(*k, v@, i as int).0,
            pass_from(*k, v@, 0).1 == views(links@) + pass_from(*k, v@, i as int).1,
        decreases v@.len() - i,
    {
        proof {
            lemma_next_match(*k, v@, i as int);
        }
        match next_match_exec(k, &v, i) {
            None => {
                push_chars(&mut out, &v, i, v.len());
                assert(pass_from(*k, v@, 0).1 =~= views(links@));
                return (out, links);
            },
            Some((st, h)) => {
                proof {
                    lemma_match_bounds(*k, v@, st as int);
                }
                let ghost out0 = out@;
                let ghost links0 = views(links@);
                let ghost rep = replacement(*k, v@, hit_view(h));
                push_chars(&mut out, &v, i, st);
                push_replacement(k, &v, h, &mut out, &mut links);
                proof {
                    let rest = pass_from(*k, v@, h.3 as int);
                    assert(out@ + rest.0 =~= out0 + (v@.subrange(i as int, st as int) + rep.0 + rest.0));
                    match rep.1 {
                        Some(t) => {
                            assert(views(links@) + rest.1 =~= links0 + (seq![t] + rest.1));
                        },
                        None => {
                            assert(views(links@) + rest.1 =~= links0 + rest.1);
                        },
                    }
                }
                i = h.3;
            },
        }
    }
}

/// The body of a note: the text after its frontmatter, or the whole note.
pub open spec fn note_body(content: Seq<char>) -> Seq<char> {
    match frontmatter_split(content) {
        Some((_, body)) => body,
        None => content,
    }
}

/// The Markdown that is handed to the parser: the body after the four link passes.
pub open spec fn rewritten_markdown(body: Seq<char>) -> Seq<char> {
    let p1 = pass_from(LinkPass::ImageWiki, body, 0).0;
    let p2 = pass_from(LinkPass::Wiki, p1, 0).0;
    let p3 = pass_from(LinkPass::MdImage, p2, 0).0;
    pass_from(LinkPass::MdLink, p3, 0).0
}

/// The notes that the wiki links of a body point to, in order.
pub open spec fn body_links(body: Seq<char>) -> Seq<Seq<char>> {
    pass_from(LinkPass::Wiki, pass_from(LinkPass::ImageWiki, body, 0).0, 0).1
}

impl MarkdownProcessor {
    /// Processes a note: returns its HTML, the notes it links to, its tags, its
    /// frontmatter and its table of contents. The table of contents has one entry per
    /// heading, in order; each has a level from 1 to 6 and the anchor id of its place in
    /// the order, its heading tag stands in the HTML, and no two ids are equal.
    ///
    /// The note's frontmatter block is parsed as YAML (see `note_frontmatter`); the rest
    /// is `process_with_frontmatter`.
    pub fn process(content: &str) -> (r: (String, Vec<String>, Vec<String>, Frontmatter, Vec<TocItem>))
        ensures
            r.3 == note_frontmatter(content@),
            process_spec(content@, r.3, r),
    {
        let (_body, yaml) = MarkdownProcessor::extract_frontmatter(content);
        let frontmatter = match yaml {
            Some(y) => parse_yaml(y.as_str()),
            None => Frontmatter::Null,
        };
        MarkdownProcessor::process_with_frontmatter(content, frontmatter)
    }

    /// Processes a note whose frontmatter has been parsed into `frontmatter`: the body is
    /// rewritten by the four link passes, parsed by `pulldown-cmark` and rendered (see
    /// `render_events`); the tags come from `frontmatter` and the body (see `note_tags`),
    /// and `frontmatter` is handed back.
    pub fn process_with_frontmatter(content: &str, frontmatter: Frontmatter) -> (r: (
        String,
        Vec<String>,
        Vec<String>,
        Frontmatter,
        Vec<TocItem>,
    ))
        ensures
            r.3 == frontmatter,
            process_spec(content@, frontmatter, r),
    {
        let (body, _yaml) = MarkdownProcessor::extract_frontmatter(content);
        let (p1, _) = run_pass(&LinkPass::ImageWiki, body.as_str());
        let (p2, links) = run_pass(&LinkPass::Wiki, p1.as_str());
        let (p3, _) = run_pass(&LinkPass::MdImage, p2.as_str());
        let (md, _) = run_pass(&LinkPass::MdLink, p3.as_str());
        let events = markdown_events(md.as_str());
        let (html, toc) = render_events(&events);
        proof {
            lemma_render_headings(events@, events@.len());
            lemma_toc_numbered(events@, events@.len());
            lemma_toc_ids_distinct(events@);
        }
        let tags = extract_tags(body.as_str(), &frontmatter);
        (html, links, tags, frontmatter, toc)
    }
}


// ─── Laws of the table of contents ──────────────────────────────────────────

/// The number of heading ends among the first `n` events.
pub open spec fn heading_ends(evs: Seq<MdEvent>, n: int) -> nat
    decreases n,
{
    if n <= 0 || n > evs.len() {
        0
    } else {
        heading_ends(evs, n - 1) + if evs[n - 1].kind is HeadingEnd {
            1nat
        } else {
            0nat
        }
    }
}

/// Over well-formed headings the renderer keeps a heading open exactly while the events
/// do, at the same level; its table of contents has one entry per heading end, each with
/// a level from 1 to 6 and its heading tag (`<hN id="…">`, text and closing tag) in the
/// HTML.
pub proof fn lemma_render_headings(evs: Seq<MdEvent>, n: nat)
    requires
        headings_well_formed(evs),
        n <= evs.len(),
    ensures
        ({
            let st = render_upto(evs, n);
            &&& (st.2 is Some <==> open_heading(evs, n as int) is Some)
            &&& (st.2 matches Some(h) ==> open_heading(evs, n as int) == Some(h.0) && 1 <= h.0 <= 6)
            &&& st.1.len() == heading_ends(evs, n as int)
            &&& forall|i: int|
                0 <= i < st.1.len() ==> 1 <= (#[trigger] st.1[i]).0 <= 6 && contains_text(
                    st.0,
                    heading_html(st.1[i].0, st.1[i].2, st.1[i].1),
                )
        }),
    decreases n,
{
    if n > 0 {
        let m = (n - 1) as nat;
        lemma_render_headings(evs, m);
        let prev = render_upto(evs, m);
        let st = render_upto(evs, n);
        let ev = evs[m as int];
        assert(st == render_step(prev, ev));
        assert(open_heading(evs, n as int) == match ev.kind {
            MdKind::HeadingStart(l) => Some(l),
            MdKind::HeadingEnd(_) => None,
            _ => open_heading(evs, m as int),
        });
        // The HTML only grows at its end, so what it held stays.
        assert(st.0.len() >= prev.0.len() && st.0.subrange(0, prev.0.len() as int) == prev.0);
        assert forall|i: int| 0 <= i < st.1.len() implies 1 <= (#[trigger] st.1[i]).0 <= 6 && contains_text(
            st.0,
            heading_html(st.1[i].0, st.1[i].2, st.1[i].1),
        ) by {
            if i < prev.1.len() {
                assert(st.1[i] == prev.1[i]);
                let hh = heading_html(prev.1[i].0, prev.1[i].2, prev.1[i].1);
                let p = choose|p: int| #[trigger] occurs_at(prev.0, hh, p);
                assert(st.0.subrange(p, p + hh.len()) =~= prev.0.subrange(p, p + hh.len()));
                assert(occurs_at(st.0, hh, p));
            } else {
                let hh = heading_html(st.1[i].0, st.1[i].2, st.1[i].1);
                let p = prev.0.len() as int;
                assert(st.0 == prev.0 + hh);
                assert(st.0.subrange(p, p + hh.len()) =~= hh);
                assert(occurs_at(st.0, hh, p));
            }
        }
    }
}


/// A decimal numeral holds no `-`.
proof fn lemma_decimal_no_dash(n: nat)
    ensures
        forall|k: int| 0 <= k < decimal(n).len() ==> #[trigger] decimal(n)[k] != '-',
        decimal(n).len() >= 1,
        n >= 10 ==> decimal(n).len() >= 2,
    decreases n,
{
    if n >= 10 {
        lemma_decimal_no_dash(n / 10);
        assert forall|k: int| 0 <= k < decimal(n).len() implies #[trigger] decimal(n)[k] != '-' by {
            if k < decimal(n / 10).len() {
                assert(decimal(n)[k] == decimal(n / 10)[k]);
            } else {
                assert(decimal(n)[k] == crate::text::digit_char(n % 10));
            }
        }
    }
}

/// Different numbers have different numerals.
proof fn lemma_decimal_injective(a: nat, b: nat)
    requires
        decimal(a) == decimal(b),
    ensures
        a == b,
    decreases a,
{
    lemma_decimal_no_dash(a);
    lemma_decimal_no_dash(b);
    if a < 10 && b < 10 {
        assert(decimal(a)[0] == crate::text::digit_char(a));
        assert(decimal(b)[0] == crate::text::digit_char(b));
    } else if a >= 10 && b >= 10 {
        let da = decimal(a);
        let db = decimal(b);
        assert(da.last() == crate::text::digit_char(a % 10));
        assert(db.last() == crate::text::digit_char(b % 10));
        assert(da.drop_last() =~= decimal(a / 10));
        assert(db.drop_last() =~= decimal(b / 10));
        lemma_decimal_injective(a / 10, b / 10);
    } else {
        lemma_decimal_no_dash(a / 10);
        lemma_decimal_no_dash(b / 10);
    }
}

/// An anchor id ends with `-` and the heading's number, and nothing after that `-` is a
/// `-`.
proof fn lemma_heading_id_shape(text: Seq<char>, counter: nat)
    ensures
        ({
            let id = heading_id_spec(text, counter);
            let d = decimal(counter);
            &&& id.len() > d.len()
            &&& id[id.len() - d.len() - 1] == '-'
            &&& id.skip(id.len() - d.len()) == d
        }),
{
    reveal_strlit("heading-");
    reveal_strlit("-");
    lemma_decimal_no_dash(counter);
    let id = heading_id_spec(text, counter);
    let d = decimal(counter);
    assert(id.skip(id.len() - d.len()) =~= d);
}

/// Anchor ids of headings with different numbers differ, whatever their texts.
pub proof fn lemma_heading_ids_distinct(t1: Seq<char>, n1: nat, t2: Seq<char>, n2: nat)
    requires
        n1 != n2,
    ensures
        heading_id_spec(t1, n1) != heading_id_spec(t2, n2),
{
    lemma_heading_id_shape(t1, n1);
    lemma_heading_id_shape(t2, n2);
    lemma_decimal_no_dash(n1);
    lemma_decimal_no_dash(n2);
    let id = heading_id_spec(t1, n1);
    let d1 = decimal(n1);
    let d2 = decimal(n2);
    if id == heading_id_spec(t2, n2) {
        let l = id.len();
        if d1.len() < d2.len() {
            let k = l - d1.len() - 1;
            assert(id[k] == '-');
            assert(id.skip(l - d2.len())[k - (l - d2.len())] == id[k]);
            assert(d2[k - (l - d2.len())] == '-');
        } else if d2.len() < d1.len() {
            let k = l - d2.len() - 1;
            assert(id[k] == '-');
            assert(id.skip(l - d1.len())[k - (l - d1.len())] == id[k]);
            assert(d1[k - (l - d1.len())] == '-');
        } else {
            assert(d1 == d2);
            lemma_decimal_injective(n1, n2);
        }
    }
}

/// The table of contents that the renderer builds: the number of headings closed is the
/// number of entries, and the `i`-th entry (from 0) carries the anchor id of the
/// `i + 1`-th heading of its text.
pub proof fn lemma_toc_numbered(evs: Seq<MdEvent>, n: nat)
    ensures
        ({
            let st = render_upto(evs, n);
            &&& st.3 == st.1.len()
            &&& forall|i: int| 0 <= i < st.1.len() ==> (#[trigger] st.1[i]).2 == heading_id_spec(st.1[i].1, (i + 1) as nat)
        }),
    decreases n,
{
    if n > 0 {
        lemma_toc_numbered(evs, (n - 1) as nat);
        let prev = render_upto(evs, (n - 1) as nat);
        let st = render_upto(evs, n);
        if st.1.len() > prev.1.len() {
            assert forall|i: int| 0 <= i < st.1.len() implies (#[trigger] st.1[i]).2 == heading_id_spec(
                st.1[i].1,
                (i + 1) as nat,
            ) by {
                if i < prev.1.len() {
                    assert(st.1[i] == prev.1[i]);
                }
            }
        }
    }
}

/// The anchor ids of a rendered table of contents are pairwise distinct.
pub proof fn lemma_toc_ids_distinct(evs: Seq<MdEvent>)
    ensures
        ({
            let toc = render_upto(evs, evs.len()).1;
            forall|i: int, j: int| 0 <= i < j < toc.len() ==> (#[trigger] toc[i]).2 != (#[trigger] toc[j]).2
        }),
{
    lemma_toc_numbered(evs, evs.len());
    let toc = render_upto(evs, evs.len()).1;
    assert forall|i: int, j: int| 0 <= i < j < toc.len() implies (#[trigger] toc[i]).2 != (#[trigger] toc[j]).2 by {
        lemma_heading_ids_distinct(toc[i].1, (i + 1) as nat, toc[j].1, (j + 1) as nat);
    }
}

} // verus!
