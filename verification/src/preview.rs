//! The live preview of the browser: Markdown with wiki links, math and highlights turned
//! into HTML before parsing, and the table of contents read back out of rendered HTML.
use vstd::prelude::*;
use pulldown_cmark::{html, Options, Parser};
use crate::markdown::{
    first_from, first_from_exec, lemma_first_from, toc_view, ends_with_any, has_image_ext, hit_view, image_exts, lemma_match_bounds, match_at, match_at_exec, pct_encode,
    percent_encode, ExecHit, Hit, LinkPass,
};
use crate::domain::TocItem;
use crate::text::{
    is_word_char, spec_is_word_char,
    escape_char, html_escape_spec, seq_starts_with, is_whitespace, is_ws, push_chars, push_html_escaped, push_str, seq_ends_with,
    spec_to_lowercase, str_to_chars, to_lowercase, trim_ws, trimmed_string,
};

verus! {

// ─── Escapes ─────────────────────────────────────────────────────────────────

/// The escape of one character inside an attribute: as in text, and a line feed as
/// `&#10;`.
pub open spec fn attr_escape_char(c: char) -> Seq<char> {
    if c == '\n' {
        "&#10;"@
    } else {
        escape_char(c)
    }
}

/// The attribute escape of a text, character by character.
pub open spec fn attr_escape_spec(s: Seq<char>) -> Seq<char>
    decreases s.len(),
{
    if s.len() == 0 {
        Seq::empty()
    } else {
        attr_escape_spec(s.drop_last()) + attr_escape_char(s.last())
    }
}

/// Appends the attribute escape of `v[lo..hi]`.
fn push_attr_escaped(s: &mut String, v: &Vec<char>, lo: usize, hi: usize)
    requires
        lo <= hi <= v.len(),
    ensures
        final(s)@ == old(s)@ + attr_escape_spec(v@.subrange(lo as int, hi as int)),
{
    let ghost start = s@;
    let mut i = lo;
    assert(v@.subrange(lo as int, lo as int) =~= Seq::<char>::empty());
    while i < hi
        invariant
            lo <= i <= hi <= v.len(),
            s@ == start + attr_escape_spec(v@.subrange(lo as int, i as int)),
        decreases hi - i,
    {
        let c = v[i];
        if c == '\n' {
            push_str(s, "&#10;");
        } else if c == '&' {
            push_str(s, "&amp;");
        } else if c == '<' {
            push_str(s, "&lt;");
        } else if c == '>' {
            push_str(s, "&gt;");
        } else if c == '"' {
            push_str(s, "&quot;");
        } else {
            s.push(c);
        }
        assert(v@.subrange(lo as int, i + 1).drop_last() =~= v@.subrange(lo as int, i as int));
        i += 1;
        assert(s@ =~= start + attr_escape_spec(v@.subrange(lo as int, i as int)));
    }
}

// ─── Rewriting passes ────────────────────────────────────────────────────────

/// The five rewriting passes of the preview, in the order they run.
pub enum PreviewPass {
    /// `![[target|alt]]`: embedded images, notes and files.
    ImageWiki,
    /// `[[target|label]]`: links between notes.
    Wiki,
    /// `$$formula$$`, across lines.
    MathBlock,
    /// `$formula$` within a line, without whitespace just inside the dollars.
    MathInline,
    /// `==text==` within a line.
    Highlight,
}

/// The first `$$` at or after `j`.
pub open spec fn dollars_from(s: Seq<char>, j: int) -> Option<int>
    decreases s.len() - j,
{
    if j < 0 || j + 1 >= s.len() {
        None
    } else if s[j] == '$' && s[j + 1] == '$' {
        Some(j)
    } else {
        dollars_from(s, j + 1)
    }
}

/// The first position at or after `j` that holds `a`, a line feed or a carriage return.
pub open spec fn stop_from(s: Seq<char>, j: int, a: char) -> Option<int>
    decreases s.len() - j,
{
    if j < 0 || j >= s.len() {
        None
    } else if s[j] == a || s[j] == '\n' || s[j] == '\r' {
        Some(j)
    } else {
        stop_from(s, j + 1, a)
    }
}

/// The match of a pass that starts at `st`, if any: the group's start and end, and the
/// end of the whole match. The wiki passes match as the server's link passes do;
/// `\$\$([\s\S]*?)\$\$` takes the first `$$` after the opening one;
/// `\$([^\s$][^$\n\r]*[^\s$]|[^\s$])\$` takes the text up to the first `$`, line end
/// or carriage return, which must be a `$` after a character that is not whitespace;
/// `==([^=\n\r]+)==` takes a non-empty text up to the first `=` or line end, which must
/// open `==`.
pub open spec fn preview_match_at(k: PreviewPass, s: Seq<char>, st: int) -> Option<Hit> {
    match k {
        PreviewPass::ImageWiki => match_at(LinkPass::ImageWiki, s, st),
        PreviewPass::Wiki => match_at(LinkPass::Wiki, s, st),
        PreviewPass::MathBlock => if 0 <= st && st + 2 <= s.len() && s[st] == '$' && s[st + 1] == '$' {
            match dollars_from(s, st + 2) {
                Some(c) => Some((st + 2, c, None, c + 2)),
                None => None,
            }
        } else {
            None
        },
        PreviewPass::MathInline => if 0 <= st && st + 2 <= s.len() && s[st] == '$' && !is_ws(s[st + 1])
            && s[st + 1] != '$' {
            match stop_from(s, st + 2, '$') {
                Some(j) => if s[j] == '$' && !is_ws(s[j - 1]) {
                    Some((st + 1, j, None, j + 1))
                } else {
                    None
                },
                None => None,
            }
        } else {
            None
        },
        PreviewPass::Highlight => if 0 <= st && st + 2 <= s.len() && s[st] == '=' && s[st + 1] == '=' {
            match stop_from(s, st + 2, '=') {
                Some(j) => if j > st + 2 && s[j] == '=' && j + 1 < s.len() && s[j + 1] == '=' {
                    Some((st + 2, j, None, j + 2))
                } else {
                    None
                },
                None => None,
            }
        } else {
            None
        },
    }
}

/// The leftmost match at or after `i`.
pub open spec fn preview_next(k: PreviewPass, s: Seq<char>, i: int) -> Option<int>
    decreases s.len() - i,
{
    if 0 <= i < s.len() {
        if preview_match_at(k, s, i) is Some {
            Some(i)
        } else {
            preview_next(k, s, i + 1)
        }
    } else {
        None
    }
}

/// What a match is replaced with. An embedded image becomes a Markdown image on its own
/// paragraph under `/assets/`; an embedded note (`.md`, or no `.` at all) a link to
/// `/doc/` with its escaped text (the alt text, else the target); any other embedded
/// file a link to `/assets/`. A wiki link becomes a link to `/doc/` with its escaped
/// label (else the target). Targets are percent-encoded. A formula becomes a `div`
/// (block) or `span` (inline) carrying it escaped in `data-math` and as text; a
/// highlight becomes `<mark>` around the escaped text.
pub open spec fn preview_replacement(k: PreviewPass, s: Seq<char>, h: Hit) -> Seq<char> {
    let g1 = s.subrange(h.0, h.1);
    let g2 = match h.2 {
        Some((a, b)) => Some(s.subrange(a, b)),
        None => None,
    };
    match k {
        PreviewPass::ImageWiki => {
            let target = trim_ws(g1);
            let alt = match g2 {
                Some(t) => trim_ws(t),
                None => Seq::empty(),
            };
            let url = pct_encode(target);
            let text = if alt.len() == 0 {
                target
            } else {
                alt
            };
            if ends_with_any(spec_to_lowercase(target), image_exts()) {
                "\n\n!["@ + alt + "](/assets/"@ + url + ")\n\n"@
            } else if seq_ends_with(spec_to_lowercase(target), ".md"@) || !target.contains('.') {
                "["@ + html_escape_spec(text) + "](/doc/"@ + url + ")"@
            } else {
                "["@ + text + "](/assets/"@ + url + ")"@
            }
        },
        PreviewPass::Wiki => {
            let target = trim_ws(g1);
            let label = match g2 {
                Some(t) => trim_ws(t),
                None => target,
            };
            "["@ + html_escape_spec(label) + "](/doc/"@ + pct_encode(target) + ")"@
        },
        PreviewPass::MathBlock => "<div class=\"math-block\" data-math=\""@ + attr_escape_spec(g1) + "\">"@
            + html_escape_spec(g1) + "</div>"@,
        PreviewPass::MathInline => "<span class=\"math-inline\" data-math=\""@ + attr_escape_spec(g1) + "\">"@
            + html_escape_spec(g1) + "</span>"@,
        PreviewPass::Highlight => "<mark>"@ + html_escape_spec(g1) + "</mark>"@,
    }
}

/// In the preview too, an embed becomes an image exactly when its target, lower-cased,
/// ends with an image extension; otherwise it becomes a link (it opens with `[`).
pub proof fn lemma_preview_embed_is_image_by_extension(s: Seq<char>, h: Hit)
    ensures
        ({
            let target = trim_ws(s.subrange(h.0, h.1));
            let rep = preview_replacement(PreviewPass::ImageWiki, s, h);
            let exts = seq![".png"@, ".jpg"@, ".jpeg"@, ".gif"@, ".svg"@, ".webp"@];
            &&& (exists|k: int| 0 <= k < 6 && seq_ends_with(spec_to_lowercase(target), #[trigger] exts[k])) ==> seq_starts_with(
                rep,
                "\n\n!["@,
            )
            &&& !(exists|k: int| 0 <= k < 6 && seq_ends_with(spec_to_lowercase(target), #[trigger] exts[k])) ==> rep.len() > 0
                && rep[0] == '['
        }),
{
    reveal_strlit("\n\n![");
    reveal_strlit("[");
    let target = trim_ws(s.subrange(h.0, h.1));
    let exts = seq![".png"@, ".jpg"@, ".jpeg"@, ".gif"@, ".svg"@, ".webp"@];
    assert(image_exts() == exts);
    let rep = preview_replacement(PreviewPass::ImageWiki, s, h);
    if ends_with_any(spec_to_lowercase(target), image_exts()) {
        assert(rep.take(4) =~= "\n\n!["@);
    } else {
        assert(rep[0] == "["@[0]);
    }
}

pub proof fn lemma_dollars_from(s: Seq<char>, j: int)
    ensures
        dollars_from(s, j) matches Some(c) ==> j <= c && c + 2 <= s.len(),
    decreases s.len() - j,
{
    if !(j < 0 || j + 1 >= s.len()) && !(s[j] == '$' && s[j + 1] == '$') {
        lemma_dollars_from(s, j + 1);
    }
}

pub proof fn lemma_stop_from(s: Seq<char>, j: int, a: char)
    ensures
        stop_from(s, j, a) matches Some(x) ==> j <= x < s.len(),
    decreases s.len() - j,
{
    if 0 <= j < s.len() && !(s[j] == a || s[j] == '\n' || s[j] == '\r') {
        lemma_stop_from(s, j + 1, a);
    }
}

/// A match lies inside the text, after its start, with its groups in order.
pub proof fn lemma_preview_bounds(k: PreviewPass, s: Seq<char>, st: int)
    ensures
        preview_match_at(k, s, st) matches Some(h) ==> st < h.0 <= h.1 < h.3 <= s.len() && (h.2 matches Some(
            (a, b),
        ) ==> h.1 < a <= b < h.3),
{
    match k {
        PreviewPass::ImageWiki => lemma_match_bounds(LinkPass::ImageWiki, s, st),
        PreviewPass::Wiki => lemma_match_bounds(LinkPass::Wiki, s, st),
        PreviewPass::MathBlock => lemma_dollars_from(s, st + 2),
        PreviewPass::MathInline => lemma_stop_from(s, st + 2, '$'),
        PreviewPass::Highlight => lemma_stop_from(s, st + 2, '='),
    }
}

pub proof fn lemma_preview_next(k: PreviewPass, s: Seq<char>, i: int)
    ensures
        preview_next(k, s, i) matches Some(st) ==> i <= st && preview_match_at(k, s, st) is Some,
    decreases s.len() - i,
{
    if 0 <= i < s.len() && preview_match_at(k, s, i) is None {
        lemma_preview_next(k, s, i + 1);
    }
}

/// One pass from position `i`: the text with each leftmost match replaced.
pub open spec fn preview_pass_from(k: PreviewPass, s: Seq<char>, i: int) -> Seq<char>
    decreases s.len() - i,
{
    if 0 <= i <= s.len() {
        match preview_next(k, s, i) {
            None => s.subrange(i, s.len() as int),
            Some(st) => {
                proof {
                    lemma_preview_next(k, s, i);
                    lemma_preview_bounds(k, s, st);
                }
                let h = preview_match_at(k, s, st)->0;
                s.subrange(i, st) + preview_replacement(k, s, h) + preview_pass_from(k, s, h.3)
            },
        }
    } else {
        Seq::empty()
    }
}

/// The Markdown that the preview hands to the parser: the text after the five passes.
pub open spec fn preview_rewritten(content: Seq<char>) -> Seq<char> {
    let p1 = preview_pass_from(PreviewPass::ImageWiki, content, 0);
    let p2 = preview_pass_from(PreviewPass::Wiki, p1, 0);
    let p3 = preview_pass_from(PreviewPass::MathBlock, p2, 0);
    let p4 = preview_pass_from(PreviewPass::MathInline, p3, 0);
    preview_pass_from(PreviewPass::Highlight, p4, 0)
}


fn dollars_from_exec(v: &Vec<char>, j: usize) -> (r: Option<usize>)
    requires
        j <= v@.len(),
    ensures
        match dollars_from(v@, j as int) {
            Some(c) => r == Some(c as usize),
            None => r is None,
        },
{
    let mut k = j;
    while v.len() - k > 1
        invariant
            j <= k <= v@.len(),
            dollars_from(v@, j as int) == dollars_from(v@, k as int),
        decreases v@.len() - k,
    {
        if v[k] == '$' && v[k + 1] == '$' {
            return Some(k);
        }
        k += 1;
    }
    None
}

fn stop_from_exec(v: &Vec<char>, j: usize, a: char) -> (r: Option<usize>)
    requires
        j <= v@.len(),
    ensures
        match stop_from(v@, j as int, a) {
            Some(x) => r == Some(x as usize),
            None => r is None,
        },
{
    let mut k = j;
    while k < v.len()
        invariant
            j <= k <= v@.len(),
            stop_from(v@, j as int, a) == stop_from(v@, k as int, a),
        decreases v@.len() - k,
    {
        if v[k] == a || v[k] == '\n' || v[k] == '\r' {
            return Some(k);
        }
        k += 1;
    }
    None
}

fn preview_match_exec(k: &PreviewPass, v: &Vec<char>, st: usize) -> (r: Option<ExecHit>)
    requires
        st <= v@.len(),
    ensures
        match preview_match_at(*k, v@, st as int) {
            Some(h) => r matches Some(h2) && hit_view(h2) == h,
            None => r is None,
        },
{
    match k {
        PreviewPass::ImageWiki => match_at_exec(&LinkPass::ImageWiki, v, st),
        PreviewPass::Wiki => match_at_exec(&LinkPass::Wiki, v, st),
        PreviewPass::MathBlock => {
            if v.len() - st >= 2 && v[st] == '$' && v[st + 1] == '$' {
                match dollars_from_exec(v, st + 2) {
                    Some(c) => {
                        proof {
                            lemma_dollars_from(v@, st + 2);
                        }
                        Some((st + 2, c, None, c + 2))
                    },
                    None => None,
                }
            } else {
                None
            }
        },
        PreviewPass::MathInline => {
            if v.len() - st >= 2 && v[st] == '$' && !is_whitespace(v[st + 1]) && v[st + 1] != '$' {
                proof {
                    lemma_stop_from(v@, st + 2, '$');
                }
                match stop_from_exec(v, st + 2, '$') {
                    Some(j) => {
                        if v[j] == '$' && !is_whitespace(v[j - 1]) {
                            Some((st + 1, j, None, j + 1))
                        } else {
                            None
                        }
                    },
                    None => None,
                }
            } else {
                None
            }
        },
        PreviewPass::Highlight => {
            if v.len() - st >= 2 && v[st] == '=' && v[st + 1] == '=' {
                proof {
                    lemma_stop_from(v@, st + 2, '=');
                }
                match stop_from_exec(v, st + 2, '=') {
                    Some(j) => {
                        if j > st + 2 && v[j] == '=' && j + 1 < v.len() && v[j + 1] == '=' {
                            Some((st + 2, j, None, j + 2))
                        } else {
                            None
                        }
                    },
                    None => None,
                }
            } else {
                None
            }
        },
    }
}

fn preview_next_exec(k: &PreviewPass, v: &Vec<char>, i: usize) -> (r: Option<(usize, ExecHit)>)
    requires
        i <= v@.len(),
    ensures
        match preview_next(*k, v@, i as int) {
            Some(st) => r matches Some((st2, h)) && st2 == st && preview_match_at(*k, v@, st) == Some(hit_view(h)),
            None => r is None,
        },
{
    let mut j = i;
    while j < v.len()
        invariant
            i <= j <= v@.len(),
            preview_next(*k, v@, i as int) == preview_next(*k, v@, j as int),
        decreases v@.len() - j,
    {
        match preview_match_exec(k, v, j) {
            Some(h) => {
                return Some((j, h));
            },
            None => {},
        }
        j += 1;
    }
    None
}

/// Whether a text holds the character `c`.
fn has_char(v: &Vec<char>, c: char) -> (b: bool)
    ensures
        b == v@.contains(c),
{
    let mut i: usize = 0;
    while i < v.len()
        invariant
            i <= v@.len(),
            forall|j: int| 0 <= j < i ==> v@[j] != c,
        decreases v@.len() - i,
    {
        if v[i] == c {
            assert(v@[i as int] == c);
            return true;
        }
        i += 1;
    }
    false
}

fn push_preview_image_wiki(v: &Vec<char>, h: ExecHit, out: &mut String)
    requires
        h.0 <= h.1 <= v@.len(),
        h.2 matches Some((a, b)) ==> a <= b <= v@.len(),
    ensures
        final(out)@ == old(out)@ + preview_replacement(PreviewPass::ImageWiki, v@, hit_view(h)),
{
    let target = trimmed_string(v, h.0, h.1);
    let alt = match h.2 {
        Some((a, b)) => trimmed_string(v, a, b),
        None => String::new(),
    };
    let url = percent_encode(target.as_str());
    let lower = to_lowercase(target.as_str());
    let lv = str_to_chars(lower.as_str());
    let tv = str_to_chars(target.as_str());
    let text = if alt.as_str().unicode_len() == 0 {
        target.clone()
    } else {
        alt.clone()
    };
    if has_image_ext(&lv) {
        push_str(out, "\n\n![");
        push_str(out, alt.as_str());
        push_str(out, "](/assets/");
        push_str(out, url.as_str());
        push_str(out, ")\n\n");
    } else if crate::markdown::ends_with_ext(&lv, ".md") || !has_char(&tv, '.') {
        push_str(out, "[");
        let xv = str_to_chars(text.as_str());
        push_html_escaped(out, &xv, 0, xv.len());
        assert(xv@.subrange(0, xv@.len() as int) =~= xv@);
        push_str(out, "](/doc/");
        push_str(out, url.as_str());
        push_str(out, ")");
    } else {
        push_str(out, "[");
        push_str(out, text.as_str());
        push_str(out, "](/assets/");
        push_str(out, url.as_str());
        push_str(out, ")");
    }
}

fn push_preview_wiki(v: &Vec<char>, h: ExecHit, out: &mut String)
    requires
        h.0 <= h.1 <= v@.len(),
        h.2 matches Some((a, b)) ==> a <= b <= v@.len(),
    ensures
        final(out)@ == old(out)@ + preview_replacement(PreviewPass::Wiki, v@, hit_view(h)),
{
    let target = trimmed_string(v, h.0, h.1);
    let label = match h.2 {
        Some((a, b)) => trimmed_string(v, a, b),
        None => target.clone(),
    };
    let url = percent_encode(target.as_str());
    push_str(out, "[");
    let lv = str_to_chars(label.as_str());
    push_html_escaped(out, &lv, 0, lv.len());
    assert(lv@.subrange(0, lv@.len() as int) =~= lv@);
    push_str(out, "](/doc/");
    push_str(out, url.as_str());
    push_str(out, ")");
}

/// Appends the replacement of a match.
fn push_preview_replacement(k: &PreviewPass, v: &Vec<char>, h: ExecHit, out: &mut String)
    requires
        h.0 <= h.1 <= v@.len(),
        h.2 matches Some((a, b)) ==> a <= b <= v@.len(),
    ensures
        final(out)@ == old(out)@ + preview_replacement(*k, v@, hit_view(h)),
{
    let ghost start = out@;
    match k {
        PreviewPass::ImageWiki => push_preview_image_wiki(v, h, out),
        PreviewPass::Wiki => push_preview_wiki(v, h, out),
        PreviewPass::MathBlock => {
            push_str(out, "<div class=\"math-block\" data-math=\"");
            push_attr_escaped(out, v, h.0, h.1);
            push_str(out, "\">");
            push_html_escaped(out, v, h.0, h.1);
            push_str(out, "</div>");
        },
        PreviewPass::MathInline => {
            push_str(out, "<span class=\"math-inline\" data-math=\"");
            push_attr_escaped(out, v, h.0, h.1);
            push_str(out, "\">");
            push_html_escaped(out, v, h.0, h.1);
            push_str(out, "</span>");
        },
        PreviewPass::Highlight => {
            push_str(out, "<mark>");
            push_html_escaped(out, v, h.0, h.1);
            push_str(out, "</mark>");
        },
    }
    assert(out@ =~= start + preview_replacement(*k, v@, hit_view(h)));
}

/// Runs one preview pass over `text` (see `preview_pass_from`).
#[verifier::rlimit(30)]
pub fn run_preview_pass(k: &PreviewPass, text: &str) -> (r: String)
    ensures
        r@ == preview_pass_from(*k, text@, 0),
{
    let v = str_to_chars(text);
    let mut out = String::new();
    let mut i: usize = 0;
    loop
        invariant
            i <= v@.len(),
            v@ == text@,
            preview_pass_from(*k, v@, 0) == out@ + preview_pass_from(*k, v@, i as int),
        decreases v@.len() - i,
    {
        proof {
            lemma_preview_next(*k, v@, i as int);
        }
        match preview_next_exec(k, &v, i) {
            None => {
                push_chars(&mut out, &v, i, v.len());
                return out;
            },
            Some((st, h)) => {
                proof {
                    lemma_preview_bounds(*k, v@, st as int);
                }
                let ghost out0 = out@;
                let ghost rep = preview_replacement(*k, v@, hit_view(h));
                push_chars(&mut out, &v, i, st);
                push_preview_replacement(k, &v, h, &mut out);
                proof {
                    let rest = preview_pass_from(*k, v@, h.3 as int);
                    assert(out@ + rest =~= out0 + (v@.subrange(i as int, st as int) + rep + rest));
                }
                i = h.3;
            },
        }
    }
}

/// The Markdown that the preview hands to the parser (see `preview_rewritten`).
pub fn rewrite_preview(content: &str) -> (r: String)
    ensures
        r@ == preview_rewritten(content@),
{
    let p1 = run_preview_pass(&PreviewPass::ImageWiki, content);
    let p2 = run_preview_pass(&PreviewPass::Wiki, p1.as_str());
    let p3 = run_preview_pass(&PreviewPass::MathBlock, p2.as_str());
    let p4 = run_preview_pass(&PreviewPass::MathInline, p3.as_str());
    run_preview_pass(&PreviewPass::Highlight, p4.as_str())
}

/// The HTML that `pulldown-cmark` renders for a Markdown text with tables,
/// strikethrough, task lists and footnotes enabled.
pub uninterp spec fn spec_markdown_html(s: Seq<char>) -> Seq<char>;

/// Calls `pulldown_cmark::Parser::new_ext` with tables, strikethrough, task lists and
/// footnotes enabled and `pulldown_cmark::html::push_html` on the whole event stream.
/// The HTML is a function of the text, named `spec_markdown_html`.
#[verifier::external_body]
fn markdown_html(s: &str) -> (r: String)
    ensures
        r@ == spec_markdown_html(s@),
{
    let options = Options::ENABLE_TABLES | Options::ENABLE_STRIKETHROUGH | Options::ENABLE_TASKLISTS
        | Options::ENABLE_FOOTNOTES;
    let mut out = String::new();
    html::push_html(&mut out, Parser::new_ext(s, options));
    out
}

/// Renders a note for the live preview: the five passes (see `preview_rewritten`), then
/// Markdown with tables, strikethrough, task lists and footnotes. Callouts and
/// frontmatter are left to the page.
pub fn render_markdown(content: &str) -> (r: String)
    ensures
        r@ == spec_markdown_html(preview_rewritten(content@)),
{
    let s = rewrite_preview(content);
    markdown_html(s.as_str())
}


// ─── Table of contents out of rendered HTML ─────────────────────────────────

/// `h` or `H`.
pub open spec fn is_h(c: char) -> bool {
    c == 'h' || c == 'H'
}

/// A heading level digit, `1` to `6`.
pub open spec fn is_level(c: char) -> bool {
    '1' <= c && c <= '6'
}

/// A quote that may delimit an attribute value.
pub open spec fn is_quote(c: char) -> bool {
    c == '\'' || c == '"'
}

/// The end of the run of word characters and `-` that starts at `j`.
pub open spec fn word_run_end(s: Seq<char>, j: int) -> int
    decreases s.len() - j,
{
    if 0 <= j < s.len() && (spec_is_word_char(s[j]) || s[j] == '-') {
        word_run_end(s, j + 1)
    } else {
        j
    }
}

/// An `id` attribute at `q` in an opening tag that ends at `g`: a word boundary, `id=`
/// (any case), a quote, a non-empty run of word characters and `-`, and a quote. Its
/// value ends where the second quote stands.
pub open spec fn id_at(s: Seq<char>, q: int, g: int) -> Option<int> {
    if 1 <= q && q + 4 <= g && g <= s.len() && spec_is_word_char(s[q - 1]) != spec_is_word_char(s[q]) && (s[q]
        == 'i' || s[q] == 'I') && (s[q + 1] == 'd' || s[q + 1] == 'D') && s[q + 2] == '=' && is_quote(s[q + 3]) {
        let r = word_run_end(s, q + 4);
        if r > q + 4 && r < g && is_quote(s[r]) {
            Some(r)
        } else {
            None
        }
    } else {
        None
    }
}

/// The first `id` attribute at or after `q` in an opening tag that ends at `g`: the
/// bounds of its value.
pub open spec fn id_from(s: Seq<char>, q: int, g: int) -> Option<(int, int)>
    decreases g - q,
{
    if q >= g {
        None
    } else {
        match id_at(s, q, g) {
            Some(r) => Some((q + 4, r)),
            None => id_from(s, q + 1, g),
        }
    }
}

/// A closing heading tag `</h1>` to `</h6>` (any case of `h`) at `l`.
pub open spec fn closing_at(s: Seq<char>, l: int) -> bool {
    0 <= l && l + 5 <= s.len() && s[l] == '<' && s[l + 1] == '/' && is_h(s[l + 2]) && is_level(s[l + 3]) && s[l
        + 4] == '>'
}

/// An inline element inside a heading at `l`: `<`, a character other than `/`, the rest
/// of the tag up to `>`, text up to `</`, a non-empty closing name and `>`. It gives the
/// position after its closing `>`.
pub open spec fn element_at(s: Seq<char>, l: int) -> Option<int> {
    if 0 <= l && l + 1 < s.len() && s[l] == '<' && s[l + 1] != '/' {
        match first_from(s, l + 2, '>') {
            Some(m) => match first_from(s, m + 1, '<') {
                Some(n) => if n + 1 < s.len() && s[n + 1] == '/' {
                    match first_from(s, n + 2, '>') {
                        Some(o) => if o > n + 2 {
                            Some(o + 1)
                        } else {
                            None
                        },
                        None => None,
                    }
                } else {
                    None
                },
                None => None,
            },
            None => None,
        }
    } else {
        None
    }
}

pub proof fn lemma_element_at(s: Seq<char>, l: int)
    ensures
        element_at(s, l) matches Some(e) ==> l < e <= s.len(),
{
    lemma_first_from(s, l + 2, '>');
    if let Some(m) = first_from(s, l + 2, '>') {
        lemma_first_from(s, m + 1, '<');
        if let Some(n) = first_from(s, m + 1, '<') {
            lemma_first_from(s, n + 2, '>');
        }
    }
}

/// The closing tag of a heading whose text starts at `j`: text, inline elements each
/// followed by text, and then the closing tag, found at the first `<` that does not open
/// an element.
pub open spec fn body_close(s: Seq<char>, j: int) -> Option<int>
    decreases s.len() - j,
{
    if 0 <= j <= s.len() {
        match first_from(s, j, '<') {
            None => None,
            Some(l) => {
                proof {
                    lemma_first_from(s, j, '<');
                    lemma_element_at(s, l);
                }
                if l + 1 < s.len() && s[l + 1] == '/' {
                    if closing_at(s, l) {
                        Some(l)
                    } else {
                        None
                    }
                } else {
                    match element_at(s, l) {
                        Some(e) => body_close(s, e),
                        None => None,
                    }
                }
            },
        }
    } else {
        None
    }
}

/// A heading at `st`: `<h` (any case) and a level digit, an opening tag that ends at
/// the first `>` and holds nothing or an `id` attribute, the heading's inner HTML and a
/// closing tag. It gives the level digit, the bounds of the id, the bounds of the inner
/// HTML, and the end of the match.
pub open spec fn heading_at(s: Seq<char>, st: int) -> Option<(char, Option<(int, int)>, int, int, int)> {
    if 0 <= st && st + 3 <= s.len() && s[st] == '<' && is_h(s[st + 1]) && is_level(s[st + 2]) {
        match first_from(s, st + 3, '>') {
            Some(g) => {
                let id = id_from(s, st + 3, g);
                if id is None && g != st + 3 {
                    None
                } else {
                    match body_close(s, g + 1) {
                        Some(c) => Some((s[st + 2], id, g + 1, c, c + 5)),
                        None => None,
                    }
                }
            },
            None => None,
        }
    } else {
        None
    }
}

/// Tags removed as `<[^>]+>` is: a `<`, at least one character, up to the next `>`.
pub open spec fn strip_from(t: Seq<char>, i: int) -> Seq<char>
    decreases t.len() - i,
{
    if 0 <= i < t.len() {
        proof {
            lemma_first_from(t, i + 1, '>');
        }
        if t[i] == '<' && first_from(t, i + 1, '>') is Some && first_from(t, i + 1, '>')->0 > i + 1 {
            strip_from(t, first_from(t, i + 1, '>')->0 + 1)
        } else {
            seq![t[i]] + strip_from(t, i + 1)
        }
    } else {
        Seq::empty()
    }
}

pub proof fn lemma_body_close(s: Seq<char>, j: int)
    ensures
        body_close(s, j) matches Some(c) ==> j <= c && closing_at(s, c),
    decreases s.len() - j,
{
    if 0 <= j <= s.len() {
        lemma_first_from(s, j, '<');
        if let Some(l) = first_from(s, j, '<') {
            lemma_element_at(s, l);
            if !(l + 1 < s.len() && s[l + 1] == '/') {
                if let Some(e) = element_at(s, l) {
                    lemma_body_close(s, e);
                }
            }
        }
    }
}

pub proof fn lemma_id_from(s: Seq<char>, q: int, g: int)
    ensures
        id_from(s, q, g) matches Some((a, b)) ==> q < a < b < g,
    decreases g - q,
{
    if q < g && id_at(s, q, g) is None {
        lemma_id_from(s, q + 1, g);
    }
}

pub proof fn lemma_heading_at(s: Seq<char>, st: int)
    ensures
        heading_at(s, st) matches Some((d, id, a, b, e)) ==> st < a <= b && e == b + 5 && e <= s.len() && is_level(d)
            && (id matches Some((x, y)) ==> st < x <= y < a),
{
    lemma_first_from(s, st + 3, '>');
    if let Some(g) = first_from(s, st + 3, '>') {
        lemma_id_from(s, st + 3, g);
        lemma_body_close(s, g + 1);
    }
}

/// The leftmost heading at or after `i`.
pub open spec fn heading_next(s: Seq<char>, i: int) -> Option<int>
    decreases s.len() - i,
{
    if 0 <= i < s.len() {
        if heading_at(s, i) is Some {
            Some(i)
        } else {
            heading_next(s, i + 1)
        }
    } else {
        None
    }
}

pub proof fn lemma_heading_next(s: Seq<char>, i: int)
    ensures
        heading_next(s, i) matches Some(st) ==> i <= st && heading_at(s, st) is Some,
    decreases s.len() - i,
{
    if 0 <= i < s.len() && heading_at(s, i) is None {
        lemma_heading_next(s, i + 1);
    }
}

/// The entries of the headings found from position `i` on, one after another: the
/// level, the inner HTML with its tags removed and its ends trimmed, and the id (empty
/// when the heading has none); a heading whose text is empty is left out.
pub open spec fn toc_from(s: Seq<char>, i: int) -> Seq<(u8, Seq<char>, Seq<char>)>
    decreases s.len() - i,
{
    if 0 <= i <= s.len() {
        match heading_next(s, i) {
            None => Seq::empty(),
            Some(st) => {
                proof {
                    lemma_heading_next(s, i);
                    lemma_heading_at(s, st);
                }
                let (d, id, a, b, e) = heading_at(s, st)->0;
                let text = trim_ws(strip_from(s.subrange(a, b), 0));
                let idt = match id {
                    Some((x, y)) => s.subrange(x, y),
                    None => Seq::empty(),
                };
                let rest = toc_from(s, e);
                if text.len() == 0 {
                    rest
                } else {
                    seq![(((d as u32) - 48) as u8, text, idt)] + rest
                }
            },
        }
    } else {
        Seq::empty()
    }
}

/// The table of contents of rendered HTML.
pub open spec fn html_toc_spec(html: Seq<char>) -> Seq<(u8, Seq<char>, Seq<char>)> {
    toc_from(html, 0)
}


fn word_run_end_exec(v: &Vec<char>, j: usize) -> (r: usize)
    requires
        j <= v@.len(),
    ensures
        r == word_run_end(v@, j as int),
        j <= r <= v@.len(),
{
    let mut k = j;
    while k < v.len() && (is_word_char(v[k]) || v[k] == '-')
        invariant
            j <= k <= v@.len(),
            word_run_end(v@, j as int) == word_run_end(v@, k as int),
        decreases v@.len() - k,
    {
        k += 1;
    }
    k
}

fn id_from_exec(v: &Vec<char>, q: usize, g: usize) -> (r: Option<(usize, usize)>)
    requires
        q <= g < v@.len(),
    ensures
        match id_from(v@, q as int, g as int) {
            Some((a, b)) => r == Some((a as usize, b as usize)),
            None => r is None,
        },
{
    let mut k = q;
    while k < g
        invariant
            q <= k <= g < v@.len(),
            id_from(v@, q as int, g as int) == id_from(v@, k as int, g as int),
        decreases g - k,
    {
        if k >= 1 && g - k >= 4 && is_word_char(v[k - 1]) != is_word_char(v[k]) && (v[k] == 'i' || v[k] == 'I')
            && (v[k + 1] == 'd' || v[k + 1] == 'D') && v[k + 2] == '=' && (v[k + 3] == '\'' || v[k + 3] == '"') {
            let r = word_run_end_exec(v, k + 4);
            if r > k + 4 && r < g && (v[r] == '\'' || v[r] == '"') {
                return Some((k + 4, r));
            }
        }
        k += 1;
    }
    None
}

fn element_at_exec(v: &Vec<char>, l: usize) -> (r: Option<usize>)
    requires
        l < v@.len(),
    ensures
        match element_at(v@, l as int) {
            Some(e) => r == Some(e as usize),
            None => r is None,
        },
{
    proof {
        lemma_element_at(v@, l as int);
    }
    if v.len() - l > 1 && v[l] == '<' && v[l + 1] != '/' {
        proof {
            lemma_first_from(v@, l + 2, '>');
        }
        match first_from_exec(v, l + 2, '>') {
            Some(m) => {
                proof {
                    lemma_first_from(v@, m + 1, '<');
                }
                match first_from_exec(v, m + 1, '<') {
                    Some(n) => {
                        if n + 1 < v.len() && v[n + 1] == '/' {
                            proof {
                                lemma_first_from(v@, n + 2, '>');
                            }
                            match first_from_exec(v, n + 2, '>') {
                                Some(o) => {
                                    if o > n + 2 {
                                        Some(o + 1)
                                    } else {
                                        None
                                    }
                                },
                                None => None,
                            }
                        } else {
                            None
                        }
                    },
                    None => None,
                }
            },
            None => None,
        }
    } else {
        None
    }
}

fn body_close_exec(v: &Vec<char>, j: usize) -> (r: Option<usize>)
    requires
        j <= v@.len(),
    ensures
        match body_close(v@, j as int) {
            Some(c) => r == Some(c as usize),
            None => r is None,
        },
{
    let mut k = j;
    loop
        invariant
            j <= k <= v@.len(),
            body_close(v@, j as int) == body_close(v@, k as int),
        decreases v@.len() - k,
    {
        proof {
            lemma_first_from(v@, k as int, '<');
        }
        match first_from_exec(v, k, '<') {
            None => {
                return None;
            },
            Some(l) => {
                proof {
                    lemma_element_at(v@, l as int);
                }
                if v.len() - l > 1 && v[l + 1] == '/' {
                    if v.len() - l >= 5 && is_h_char(v[l + 2]) && '1' <= v[l + 3] && v[l + 3] <= '6' && v[l + 4] == '>' {
                        return Some(l);
                    } else {
                        return None;
                    }
                } else {
                    match element_at_exec(v, l) {
                        Some(e) => {
                            k = e;
                        },
                        None => {
                            return None;
                        },
                    }
                }
            },
        }
    }
}

fn is_h_char(c: char) -> (b: bool)
    ensures
        b == is_h(c),
{
    c == 'h' || c == 'H'
}

/// A heading found in HTML, with machine-sized positions.
type ExecHeading = (char, Option<(usize, usize)>, usize, usize, usize);

/// The heading as mathematical positions.
spec fn heading_view(h: ExecHeading) -> (char, Option<(int, int)>, int, int, int) {
    (
        h.0,
        match h.1 {
            Some((x, y)) => Some((x as int, y as int)),
            None => None,
        },
        h.2 as int,
        h.3 as int,
        h.4 as int,
    )
}

fn heading_at_exec(v: &Vec<char>, st: usize) -> (r: Option<ExecHeading>)
    requires
        st < v@.len(),
    ensures
        match heading_at(v@, st as int) {
            Some(x) => r matches Some(h) && heading_view(h) == x,
            None => r is None,
        },
{
    proof {
        lemma_heading_at(v@, st as int);
    }
    if v.len() - st >= 3 && v[st] == '<' && is_h_char(v[st + 1]) && '1' <= v[st + 2] && v[st + 2] <= '6' {
        proof {
            lemma_first_from(v@, st + 3, '>');
        }
        match first_from_exec(v, st + 3, '>') {
            Some(g) => {
                let id = id_from_exec(v, st + 3, g);
                if id.is_none() && g != st + 3 {
                    None
                } else {
                    proof {
                        lemma_body_close(v@, g + 1);
                    }
                    match body_close_exec(v, g + 1) {
                        Some(c) => Some((v[st + 2], id, g + 1, c, c + 5)),
                        None => None,
                    }
                }
            },
            None => None,
        }
    } else {
        None
    }
}

fn heading_next_exec(v: &Vec<char>, i: usize) -> (r: Option<(usize, ExecHeading)>)
    requires
        i <= v@.len(),
    ensures
        match heading_next(v@, i as int) {
            Some(st) => r matches Some((st2, h)) && st2 == st && heading_at(v@, st) == Some(heading_view(h)),
            None => r is None,
        },
{
    let mut j = i;
    while j < v.len()
        invariant
            i <= j <= v@.len(),
            heading_next(v@, i as int) == heading_next(v@, j as int),
        decreases v@.len() - j,
    {
        match heading_at_exec(v, j) {
            Some(h) => {
                return Some((j, h));
            },
            None => {},
        }
        j += 1;
    }
    None
}

/// The text of `v[lo..hi]` with its tags removed (see `strip_from`).
fn strip_tags(v: &Vec<char>, lo: usize, hi: usize) -> (r: Vec<char>)
    requires
        lo <= hi <= v@.len(),
    ensures
        r@ == strip_from(v@.subrange(lo as int, hi as int), 0),
{
    let mut t: Vec<char> = Vec::new();
    let mut k = lo;
    while k < hi
        invariant
            lo <= k <= hi <= v@.len(),
            t.len() == k - lo,
            t@ == v@.subrange(lo as int, k as int),
        decreases hi - k,
    {
        t.push(v[k]);
        k += 1;
    }
    let ghost tv = t@;
    let mut out: Vec<char> = Vec::new();
    let mut i: usize = 0;
    assert(tv.len() == hi - lo);
    while i < t.len()
        invariant
            i <= t@.len(),
            t@ == tv,
            strip_from(tv, 0) == out@ + strip_from(tv, i as int),
        decreases t@.len() - i,
    {
        proof {
            lemma_first_from(tv, i + 1, '>');
        }
        let j = if t[i] == '<' {
            first_from_exec(&t, i + 1, '>')
        } else {
            None
        };
        match j {
            Some(j) => {
                if j > i + 1 {
                    i = j + 1;
                } else {
                    out.push(t[i]);
                    assert(out@ + strip_from(tv, i + 1) =~= out@.drop_last() + (seq![tv[i as int]] + strip_from(tv, i + 1)));
                    i += 1;
                }
            },
            None => {
                out.push(t[i]);
                assert(out@ + strip_from(tv, i + 1) =~= out@.drop_last() + (seq![tv[i as int]] + strip_from(tv, i + 1)));
                i += 1;
            },
        }
    }
    assert(strip_from(tv, i as int) =~= Seq::<char>::empty());
    assert(out@ =~= out@ + Seq::<char>::empty());
    out
}

/// The table of contents of rendered HTML (see `toc_from`): each `<h1>` to `<h6>`
/// with its level, its text without tags and its `id`.
#[verifier::rlimit(30)]
pub fn generate_toc_from_html(html: &str) -> (r: Vec<TocItem>)
    ensures
        r@.map_values(|t: TocItem| toc_view(t)) == html_toc_spec(html@),
{
    let v = str_to_chars(html);
    let mut out: Vec<TocItem> = Vec::new();
    let mut i: usize = 0;
    assert(out@.map_values(|t: TocItem| toc_view(t)) =~= Seq::<(u8, Seq<char>, Seq<char>)>::empty());
    loop
        invariant
            i <= v@.len(),
            v@ == html@,
            toc_from(v@, 0) == out@.map_values(|t: TocItem| toc_view(t)) + toc_from(v@, i as int),
        decreases v@.len() - i,
    {
        proof {
            lemma_heading_next(v@, i as int);
        }
        match heading_next_exec(&v, i) {
            None => {
                assert(toc_from(v@, i as int) =~= Seq::<(u8, Seq<char>, Seq<char>)>::empty());
                assert(out@.map_values(|t: TocItem| toc_view(t)) + Seq::<(u8, Seq<char>, Seq<char>)>::empty()
                    =~= out@.map_values(|t: TocItem| toc_view(t)));
                return out;
            },
            Some((st, h)) => {
                proof {
                    lemma_heading_at(v@, st as int);
                }
                let (d, id, a, b, e) = h;
                let stripped = strip_tags(&v, a, b);
                let text = trimmed_string(&stripped, 0, stripped.len());
                assert(stripped@.subrange(0, stripped@.len() as int) =~= stripped@);
                let idt = match id {
                    Some((x, y)) => crate::text::chars_to_string_range(&v, x, y),
                    None => String::new(),
                };
                let ghost before = out@.map_values(|t: TocItem| toc_view(t));
                if text.as_str().unicode_len() > 0 {
                    let level: u8 = ((d as u32) - 48) as u8;
                    out.push(TocItem { level, text, id: idt });
                    assert(out@.map_values(|t: TocItem| toc_view(t)) =~= before.push(toc_view(out@.last())));
                }
                proof {
                    let rest = toc_from(v@, e as int);
                    if text@.len() > 0 {
                        assert(before.push(toc_view(out@.last())) + rest =~= before + (seq![toc_view(out@.last())] + rest));
                    }
                }
                i = e;
            },
        }
    }
}

} // verus!
