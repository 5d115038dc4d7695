//! The computing parts of the HTTP handlers: query parameters and their defaults,
//! breadcrumbs, previews, escaping, diffs and commit checks.
use vstd::prelude::*;
use crate::domain::BreadcrumbItem;
use crate::search::SortBy;
use crate::sync::{strip_html_spec, strip_html_tags};
use crate::text::{
    chars_to_string_range, ends_with, html_escape, html_escape_spec, is_hex_char, hex_value,
    contains_text, find_text, lines, lines_spec, push_html_escaped, push_str, seq_ends_with,
    seq_starts_with, spec_to_lowercase, split_chars, split_on, starts_with, str_to_chars, to_lowercase,
    trim_ws,
};
use crate::domain::Note;
use crate::keyed::StrKeyMap;
use crate::url::{pct_decoded, percent_decode_utf8};
use vstd::utf8::{decode_utf8, valid_utf8};
use hmac::Mac;
use hmac::digest::KeyInit;

verus! {

// ─── Query parameters ────────────────────────────────────────────────────────

/// Parameters of a full-text search request.
pub struct SearchQuery {
    pub q: String,
    pub sort_by: SortBy,
    /// Comma-separated tags, any of which a result must carry.
    pub tags: Option<String>,
    pub folder: Option<String>,
    /// Earliest modification time, in Unix seconds.
    pub date_from: Option<i64>,
    /// Latest modification time, in Unix seconds.
    pub date_to: Option<i64>,
    /// One-based page number.
    pub page: usize,
    /// Results per page.
    pub per_page: usize,
}

/// The page shown when none is asked for.
pub fn default_page() -> (r: usize)
    ensures
        r == 1,
{
    1
}

/// The page size used when none is asked for.
pub fn default_per_page() -> (r: usize)
    ensures
        r == 20,
{
    20
}

/// Parameters of a local graph request.
pub struct GraphQuery {
    /// The title of the centre note.
    pub note: String,
    /// How many link steps the graph reaches.
    pub depth: usize,
}

/// The graph depth used when none is asked for.
pub fn default_depth() -> (r: usize)
    ensures
        r == 2,
{
    2
}

/// Parameters of a note preview request.
pub struct PreviewQuery {
    pub path: String,
    /// A commit whose version of the note is previewed.
    pub commit: Option<String>,
}

/// Parameters of the recent-notes page.
pub struct RecentQuery {
    /// How many days back the page reaches.
    pub days: u64,
}

/// The recent-notes window used when none is asked for.
pub fn default_recent_days() -> (r: u64)
    ensures
        r == 30,
{
    30
}

/// Parameters of the global graph request.
pub struct GlobalGraphQuery {
    /// Whether notes without any link are left out.
    pub hide_isolated: bool,
}

/// Parameters of a title-suggestion request.
pub struct SuggestQuery {
    pub q: String,
    /// How many suggestions at most (capped at 20).
    pub limit: usize,
}

/// The number of suggestions used when none is asked for.
pub fn default_suggest_limit() -> (r: usize)
    ensures
        r == 10,
{
    10
}

/// Parameters of a shortest-path request between two notes.
pub struct PathQuery {
    pub from: String,
    pub to: String,
}

/// Parameters of the Atom feed.
pub struct FeedQuery {
    pub tag: Option<String>,
    /// A folder whose notes alone are listed.
    pub folder: Option<String>,
}

// ─── Breadcrumbs ─────────────────────────────────────────────────────────────

/// The breadcrumbs of a note at `path` titled `title`: the home page, one entry per
/// folder of the path, then the note itself; only the home page links anywhere.
pub open spec fn breadcrumbs_ok(r: Seq<BreadcrumbItem>, path: Seq<char>, title: Seq<char>) -> bool {
    let parts = split_on(path, '/');
    &&& r.len() == parts.len() + 1
    &&& r[0].name@ == "首页"@
    &&& r[0].path is Some
    &&& r[0].path->0@ == "/"@
    &&& forall|i: int| 1 <= i < parts.len() ==> (#[trigger] r[i]).name@ == parts[i - 1]
        && r[i].path is None
    &&& r.last().name@ == title
    &&& r.last().path is None
}

/// The breadcrumb trail of a note (see `breadcrumbs_ok`).
pub fn generate_breadcrumbs(note_path: &str, note_title: &str) -> (r: Vec<BreadcrumbItem>)
    ensures
        breadcrumbs_ok(r@, note_path@, note_title@),
{
    let v = str_to_chars(note_path);
    let parts = split_chars(&v, '/');
    proof {
        crate::text::lemma_split_on_len(v@, '/');
    }
    let ghost p = split_on(note_path@, '/');
    assert(parts@.len() == p.len());
    let mut r: Vec<BreadcrumbItem> = Vec::new();
    r.push(BreadcrumbItem { name: "首页".to_string(), path: Some("/".to_string()) });
    let n = parts.len();
    let mut i: usize = 0;
    while i < n - 1
        invariant
            n == parts@.len(),
            crate::config::views(parts@) == p,
            p.len() >= 1,
            i + 1 <= parts@.len(),
            r@.len() == i + 1,
            r@[0].name@ == "首页"@,
            r@[0].path is Some,
            r@[0].path->0@ == "/"@,
            forall|k: int| 1 <= k <= i ==> (#[trigger] r@[k]).name@ == p[k - 1] && r@[k].path is None,
        decreases parts@.len() - i,
    {
        let name = parts[i].clone();
        assert(parts@[i as int]@ == p[i as int]);
        r.push(BreadcrumbItem { name, path: None });
        i += 1;
    }
    r.push(BreadcrumbItem { name: note_title.to_string(), path: None });
    r
}

// ─── Previews and escaping ───────────────────────────────────────────────────

/// The preview of an HTML fragment: its plain text, cut after `max` characters with
/// `...` appended where it was longer.
pub open spec fn truncated_text(html: Seq<char>, max: nat) -> Seq<char> {
    let t = strip_html_spec(html);
    if t.len() <= max {
        t
    } else {
        t.take(max as int) + "..."@
    }
}

/// The plain-text preview of an HTML fragment (see `truncated_text`).
pub fn truncate_html(html: &str, max_chars: usize) -> (r: String)
    ensures
        r@ == truncated_text(html@, max_chars as nat),
{
    let t = strip_html_tags(html);
    let v = str_to_chars(t.as_str());
    if v.len() <= max_chars {
        t
    } else {
        let mut r = chars_to_string_range(&v, 0, max_chars);
        push_str(&mut r, "...");
        assert(v@.subrange(0, max_chars as int) =~= v@.take(max_chars as int));
        r
    }
}

/// Escapes `&`, `<`, `>` and `"` for XML text and attributes.
pub fn xml_escape(s: &str) -> (r: String)
    ensures
        r@ == html_escape_spec(s@),
{
    html_escape(s)
}

/// The path of a note's page in a static export: `.md` replaced by `.html`, or `.html`
/// appended where the path has no `.md` ending.
pub open spec fn html_path_spec(p: Seq<char>) -> Seq<char> {
    if seq_ends_with(p, ".md"@) {
        p.subrange(0, p.len() - ".md"@.len()) + ".html"@
    } else {
        p + ".html"@
    }
}

/// The exported page path of a note (see `html_path_spec`).
pub fn note_path_to_html(note_path: &str) -> (r: String)
    ensures
        r@ == html_path_spec(note_path@),
{
    let v = str_to_chars(note_path);
    let md = str_to_chars(".md");
    if ends_with(&v, &md) {
        let mut r = chars_to_string_range(&v, 0, v.len() - md.len());
        push_str(&mut r, ".html");
        r
    } else {
        let mut r = note_path.to_string();
        push_str(&mut r, ".html");
        r
    }
}

// ─── Commits and hex ─────────────────────────────────────────────────────────

/// Every character of `s` is an ASCII hexadecimal digit.
pub open spec fn all_hex(s: Seq<char>) -> bool {
    forall|i: int| 0 <= i < s.len() ==> is_hex_char(#[trigger] s[i])
}

/// A commit identifier that may be handed to git: 4 to 64 hexadecimal digits.
pub fn is_valid_commit_hash(hash: &str) -> (r: bool)
    ensures
        r == (4 <= hash@.len() <= 64 && all_hex(hash@)),
{
    let v = str_to_chars(hash);
    if v.len() < 4 || v.len() > 64 {
        return false;
    }
    let mut i: usize = 0;
    while i < v.len()
        invariant
            i <= v@.len(),
            v@ == hash@,
            forall|k: int| 0 <= k < i ==> is_hex_char(#[trigger] v@[k]),
        decreases v@.len() - i,
    {
        let c = v[i];
        if !(('a' <= c && c <= 'f') || ('A' <= c && c <= 'F') || ('0' <= c && c <= '9')) {
            return false;
        }
        i += 1;
    }
    true
}

/// The bytes that a string of hexadecimal digit pairs stands for.
pub open spec fn hex_bytes(s: Seq<char>) -> Seq<u8> {
    Seq::new(s.len() / 2, |i: int| (16 * hex_value(s[2 * i]) + hex_value(s[2 * i + 1])) as u8)
}

/// The value of one hexadecimal digit, or `None` for any other character.
fn hex_digit(c: char) -> (r: Option<u8>)
    ensures
        r is Some <==> is_hex_char(c),
        r is Some ==> r->0 == hex_value(c) && r->0 < 16,
{
    if '0' <= c && c <= '9' {
        Some(((c as u32) - ('0' as u32)) as u8)
    } else if 'a' <= c && c <= 'f' {
        Some(((c as u32) - ('a' as u32) + 10) as u8)
    } else if 'A' <= c && c <= 'F' {
        Some(((c as u32) - ('A' as u32) + 10) as u8)
    } else {
        None
    }
}

/// Decodes a hexadecimal string: `Some` exactly when it has an even number of
/// characters, all of them hexadecimal digits.
pub fn hex_decode(hex: &str) -> (r: Option<Vec<u8>>)
    ensures
        r is Some <==> (all_hex(hex@) && hex@.len() % 2 == 0),
        r is Some ==> r->0@ == hex_bytes(hex@),
{
    let v = str_to_chars(hex);
    if v.len() % 2 != 0 {
        return None;
    }
    let mut out: Vec<u8> = Vec::new();
    let mut j: usize = 0;
    while j < v.len() / 2
        invariant
            v@ == hex@,
            v@.len() % 2 == 0,
            j <= v@.len() / 2,
            forall|k: int| 0 <= k < 2 * j ==> is_hex_char(#[trigger] v@[k]),
            out@ == hex_bytes(v@).take(j as int),
        decreases v@.len() / 2 - j,
    {
        let hi = hex_digit(v[2 * j]);
        let lo = hex_digit(v[2 * j + 1]);
        match (hi, lo) {
            (Some(h), Some(l)) => {
                out.push(h * 16 + l);
                assert(out@ =~= hex_bytes(v@).take(j + 1));
            },
            _ => {
                return None;
            },
        }
        j += 1;
    }
    assert(out@ =~= hex_bytes(v@));
    Some(out)
}


// ─── Webhook signatures ──────────────────────────────────────────────────────

/// HMAC-SHA256 of `msg` under `key` (RFC 2104 over SHA-256).
pub uninterp spec fn spec_hmac_sha256(key: Seq<u8>, msg: Seq<u8>) -> Seq<u8>;

/// Computes HMAC-SHA256 of `msg` under `key` with `hmac::SimpleHmac<sha2::Sha256>` and
/// checks `tag` with `Mac::verify_slice`, which accepts exactly a tag of the MAC's
/// length equal to the MAC (compared in constant time). The key setup accepts keys of
/// every length, so the error arm is never taken.
#[verifier::external_body]
fn hmac_sha256_matches(key: &[u8], msg: &[u8], tag: &[u8]) -> (r: bool)
    ensures
        r == (tag@ == spec_hmac_sha256(key@, msg@)),
{
    match <hmac::SimpleHmac<sha2::Sha256> as KeyInit>::new_from_slice(key) {
        Ok(mut mac) => {
            mac.update(msg);
            mac.verify_slice(tag).is_ok()
        },
        Err(_) => false,
    }
}

/// A GitHub webhook signature header `sha256=<hex>` is valid for `body` under `secret`:
/// the hex part decodes and equals HMAC-SHA256 of the body keyed by the secret's UTF-8 bytes.
pub open spec fn github_signature_ok(secret: Seq<char>, body: Seq<u8>, signature: Seq<char>) -> bool {
    let rest = signature.skip("sha256="@.len() as int);
    &&& seq_starts_with(signature, "sha256="@)
    &&& all_hex(rest)
    &&& rest.len() % 2 == 0
    &&& hex_bytes(rest) == spec_hmac_sha256(vstd::utf8::encode_utf8(secret), body)
}

/// Checks a GitHub webhook signature (see `github_signature_ok`).
pub fn verify_github_signature(secret: &str, body: &[u8], signature: &str) -> (r: bool)
    ensures
        r == github_signature_ok(secret@, body@, signature@),
{
    let v = str_to_chars(signature);
    let prefix = str_to_chars("sha256=");
    if !starts_with(&v, &prefix) {
        return false;
    }
    let hex = chars_to_string_range(&v, prefix.len(), v.len());
    assert(hex@ == signature@.skip("sha256="@.len() as int));
    match hex_decode(hex.as_str()) {
        Some(sig) => {
            let key = secret.as_bytes();
            hmac_sha256_matches(key, body, sig.as_slice())
        },
        None => false,
    }
}

/// The outcome of checking a webhook request.
#[derive(Clone, Copy, Debug, PartialEq, Eq, Structural)]
pub enum WebhookCheck {
    /// Webhooks are switched off.
    Disabled,
    /// No secret is configured.
    SecretMissing,
    /// The GitHub signature does not match.
    BadSignature,
    /// The GitLab token does not match.
    BadToken,
    /// Neither authentication header was sent.
    MissingAuth,
    /// The request is authentic: a sync may start.
    Accepted,
}

/// What a webhook request is answered, from the configuration, the two authentication
/// headers (GitHub's signature is checked first) and the body.
pub open spec fn webhook_check_spec(
    enabled: bool,
    secret: Seq<char>,
    github_signature: Option<Seq<char>>,
    gitlab_token: Option<Seq<char>>,
    body: Seq<u8>,
) -> WebhookCheck {
    if !enabled {
        WebhookCheck::Disabled
    } else if secret.len() == 0 {
        WebhookCheck::SecretMissing
    } else if github_signature is Some {
        if github_signature_ok(secret, body, github_signature->0) {
            WebhookCheck::Accepted
        } else {
            WebhookCheck::BadSignature
        }
    } else if gitlab_token is Some {
        if gitlab_token->0 == secret {
            WebhookCheck::Accepted
        } else {
            WebhookCheck::BadToken
        }
    } else {
        WebhookCheck::MissingAuth
    }
}

/// The view of an optional string.
pub open spec fn opt_view(o: Option<String>) -> Option<Seq<char>> {
    match o {
        Some(s) => Some(s@),
        None => None,
    }
}

/// Checks a webhook request (see `webhook_check_spec`).
pub fn check_webhook(
    enabled: bool,
    secret: &str,
    github_signature: &Option<String>,
    gitlab_token: &Option<String>,
    body: &[u8],
) -> (r: WebhookCheck)
    ensures
        r == webhook_check_spec(enabled, secret@, opt_view(*github_signature), opt_view(*gitlab_token), body@),
{
    if !enabled {
        return WebhookCheck::Disabled;
    }
    if secret.unicode_len() == 0 {
        return WebhookCheck::SecretMissing;
    }
    match github_signature {
        Some(sig) => {
            if verify_github_signature(secret, body, sig.as_str()) {
                WebhookCheck::Accepted
            } else {
                WebhookCheck::BadSignature
            }
        },
        None => match gitlab_token {
            Some(tok) => {
                if crate::text::str_eq(tok.as_str(), secret) {
                    WebhookCheck::Accepted
                } else {
                    WebhookCheck::BadToken
                }
            },
            None => WebhookCheck::MissingAuth,
        },
    }
}

// ─── Diffs ───────────────────────────────────────────────────────────────────

/// The table row of one line of a unified diff: file headers give none, hunk headers,
/// added, removed and context lines each their own row, their text HTML-escaped.
pub open spec fn diff_row(line: Seq<char>) -> Seq<char> {
    if seq_starts_with(line, "--- "@) || seq_starts_with(line, "+++ "@) || seq_starts_with(line, "diff "@) {
        Seq::empty()
    } else if seq_starts_with(line, "@@ "@) {
        "<tr class=\"diff-hunk\"><td colspan=\"2\"><code>"@ + html_escape_spec(line) + "</code></td></tr>"@
    } else if line.len() > 0 && line[0] == '+' {
        "<tr class=\"diff-add\"><td class=\"diff-marker\">+</td><td><code>"@ + html_escape_spec(line.drop_first())
            + "</code></td></tr>"@
    } else if line.len() > 0 && line[0] == '-' {
        "<tr class=\"diff-del\"><td class=\"diff-marker\">-</td><td><code>"@ + html_escape_spec(line.drop_first())
            + "</code></td></tr>"@
    } else {
        let text = if line.len() > 0 && line[0] == ' ' { line.drop_first() } else { line };
        "<tr class=\"diff-ctx\"><td class=\"diff-marker\"> </td><td><code>"@ + html_escape_spec(text)
            + "</code></td></tr>"@
    }
}

/// The rows of a sequence of diff lines, in order.
pub open spec fn diff_rows(ls: Seq<Seq<char>>) -> Seq<char>
    decreases ls.len(),
{
    if ls.len() == 0 {
        Seq::empty()
    } else {
        diff_rows(ls.drop_last()) + diff_row(ls.last())
    }
}

/// The HTML table of a unified diff.
pub open spec fn diff_html_spec(diff: Seq<char>) -> Seq<char> {
    "<table class=\"diff-table\"><tbody>"@ + diff_rows(lines_spec(diff)) + "</tbody></table>"@
}

/// Appends the row of one diff line.
fn push_diff_row(s: &mut String, line: &String)
    ensures
        final(s)@ == old(s)@ + diff_row(line@),
{
    let v = str_to_chars(line.as_str());
    let n = v.len();
    assert(v@.subrange(0, n as int) =~= v@);
    assert(n > 0 ==> v@.subrange(1, n as int) =~= v@.drop_first());
    if starts_with(&v, &str_to_chars("--- ")) || starts_with(&v, &str_to_chars("+++ "))
        || starts_with(&v, &str_to_chars("diff ")) {
        assert(old(s)@ + Seq::<char>::empty() =~= old(s)@);
    } else if starts_with(&v, &str_to_chars("@@ ")) {
        push_str(s, "<tr class=\"diff-hunk\"><td colspan=\"2\"><code>");
        push_html_escaped(s, &v, 0, n);
        push_str(s, "</code></td></tr>");
    } else if n > 0 && v[0] == '+' {
        push_str(s, "<tr class=\"diff-add\"><td class=\"diff-marker\">+</td><td><code>");
        push_html_escaped(s, &v, 1, n);
        push_str(s, "</code></td></tr>");
    } else if n > 0 && v[0] == '-' {
        push_str(s, "<tr class=\"diff-del\"><td class=\"diff-marker\">-</td><td><code>");
        push_html_escaped(s, &v, 1, n);
        push_str(s, "</code></td></tr>");
    } else {
        push_str(s, "<tr class=\"diff-ctx\"><td class=\"diff-marker\"> </td><td><code>");
        if n > 0 && v[0] == ' ' {
            push_html_escaped(s, &v, 1, n);
        } else {
            push_html_escaped(s, &v, 0, n);
        }
        push_str(s, "</code></td></tr>");
    }
}

/// Renders a unified diff as an HTML table (see `diff_html_spec`).
pub fn render_diff_html(diff: &str) -> (r: String)
    ensures
        r@ == diff_html_spec(diff@),
{
    let ls = lines(diff);
    let ghost lv = lines_spec(diff@);
    let mut html = String::new();
    push_str(&mut html, "<table class=\"diff-table\"><tbody>");
    let ghost head = html@;
    let mut i: usize = 0;
    assert(lv.take(0) =~= Seq::<Seq<char>>::empty());
    while i < ls.len()
        invariant
            i <= ls@.len(),
            crate::config::views(ls@) == lv,
            html@ == head + diff_rows(lv.take(i as int)),
        decreases ls@.len() - i,
    {
        push_diff_row(&mut html, &ls[i]);
        assert(lv.take(i + 1).drop_last() =~= lv.take(i as int));
        assert(ls@[i as int]@ == lv[i as int]);
        i += 1;
        assert(html@ =~= head + diff_rows(lv.take(i as int)));
    }
    assert(lv.take(ls@.len() as int) =~= lv);
    push_str(&mut html, "</tbody></table>");
    html
}


// ─── Note lookup ─────────────────────────────────────────────────────────────

/// The note a request names by `path`: the note stored under it, else the one the link
/// index gives for it as a title, else the note stored under it with `.md` appended.
pub open spec fn note_key_spec(
    path: Seq<char>,
    notes: Map<Seq<char>, Note>,
    links: Map<Seq<char>, String>,
) -> Option<Seq<char>> {
    if notes.contains_key(path) {
        Some(path)
    } else if links.contains_key(path) {
        Some(links[path]@)
    } else if notes.contains_key(path + ".md"@) {
        Some(path + ".md"@)
    } else {
        None
    }
}

/// The key of the note a request names (see `note_key_spec`).
pub fn resolve_note_key(path: &str, notes: &StrKeyMap<Note>, link_index: &StrKeyMap<String>) -> (r: Option<String>)
    ensures
        opt_view(r) == note_key_spec(path@, notes@, link_index@),
{
    if notes.contains_key(path) {
        return Some(path.to_string());
    }
    if let Some(p) = link_index.get(path) {
        return Some(p.clone());
    }
    let mut with_md = path.to_string();
    push_str(&mut with_md, ".md");
    if notes.contains_key(with_md.as_str()) {
        Some(with_md)
    } else {
        None
    }
}

/// What a request for a note, naming it by a percent-encoded path, comes to.
pub enum NoteLookup {
    /// The percent-decoded path is not valid UTF-8.
    BadPath,
    /// No note answers to the decoded path.
    NotFound(String),
    /// The key of the note, beside the decoded path.
    Found(String, String),
}

/// Decodes the path of a note request and resolves it as `resolve_note_key` does.
pub fn lookup_note(raw: &str, notes: &StrKeyMap<Note>, link_index: &StrKeyMap<String>) -> (r: NoteLookup)
    ensures
        r is BadPath <==> !valid_utf8(pct_decoded(raw@)),
        r matches NoteLookup::NotFound(p) ==> p@ == decode_utf8(pct_decoded(raw@)) && note_key_spec(
            p@,
            notes@,
            link_index@,
        ) is None,
        r matches NoteLookup::Found(p, k) ==> p@ == decode_utf8(pct_decoded(raw@)) && note_key_spec(
            p@,
            notes@,
            link_index@,
        ) == Some(k@),
        valid_utf8(pct_decoded(raw@)) ==> (r is Found <==> note_key_spec(
            decode_utf8(pct_decoded(raw@)),
            notes@,
            link_index@,
        ) is Some),
{
    match percent_decode_utf8(raw) {
        None => NoteLookup::BadPath,
        Some(path) => match resolve_note_key(path.as_str(), notes, link_index) {
            Some(k) => NoteLookup::Found(path, k),
            None => NoteLookup::NotFound(path),
        },
    }
}

/// What a request for a vault file (an image, a PDF) comes to.
pub enum AssetRequest {
    /// The percent-decoded name is not valid UTF-8.
    BadName,
    /// The decoded name, and the path the file index holds under it, if any: the file is
    /// looked for under the name first, then under that path.
    Named(String, Option<String>),
}

/// Decodes the name of a vault file request and looks it up in the file index.
pub fn asset_request(raw: &str, file_index: &StrKeyMap<String>) -> (r: AssetRequest)
    ensures
        r is BadName <==> !valid_utf8(pct_decoded(raw@)),
        r matches AssetRequest::Named(name, indexed) ==> name@ == decode_utf8(pct_decoded(raw@)) && opt_view(
            indexed,
        ) == if file_index@.contains_key(name@) {
            Some(file_index@[name@]@)
        } else {
            None
        },
{
    match percent_decode_utf8(raw) {
        None => AssetRequest::BadName,
        Some(name) => {
            let indexed = match file_index.get(name.as_str()) {
                Some(p) => Some(p.clone()),
                None => None,
            };
            AssetRequest::Named(name, indexed)
        },
    }
}

/// The file names a vault's home page may have, in order of preference.
pub open spec fn home_candidates() -> Seq<Seq<char>> {
    seq!["README.md"@, "Readme.md"@, "readme.md"@, "index.md"@, "Index.md"@]
}

/// The note shown as the home page: the first of `home_candidates` that is a note.
pub open spec fn home_note_spec(notes: Map<Seq<char>, Note>) -> Option<Seq<char>> {
    if notes.contains_key(home_candidates()[0]) {
        Some(home_candidates()[0])
    } else if notes.contains_key(home_candidates()[1]) {
        Some(home_candidates()[1])
    } else if notes.contains_key(home_candidates()[2]) {
        Some(home_candidates()[2])
    } else if notes.contains_key(home_candidates()[3]) {
        Some(home_candidates()[3])
    } else if notes.contains_key(home_candidates()[4]) {
        Some(home_candidates()[4])
    } else {
        None
    }
}

/// The key of the home-page note, if the vault has one (see `home_note_spec`).
pub fn home_note(notes: &StrKeyMap<Note>) -> (r: Option<String>)
    ensures
        opt_view(r) == home_note_spec(notes@),
{
    if notes.contains_key("README.md") {
        Some("README.md".to_string())
    } else if notes.contains_key("Readme.md") {
        Some("Readme.md".to_string())
    } else if notes.contains_key("readme.md") {
        Some("readme.md".to_string())
    } else if notes.contains_key("index.md") {
        Some("index.md".to_string())
    } else if notes.contains_key("Index.md") {
        Some("Index.md".to_string())
    } else {
        None
    }
}

// ─── Title suggestions ───────────────────────────────────────────────────────

/// The text a suggestion query is matched with: trimmed and lower-cased; `None` where
/// nothing is left.
pub open spec fn suggestion_query_spec(q: Seq<char>) -> Option<Seq<char>> {
    let l = spec_to_lowercase(trim_ws(q));
    if l.len() == 0 {
        None
    } else {
        Some(l)
    }
}

/// The normalised query of a suggestion request (see `suggestion_query_spec`).
pub fn suggestion_query(q: &str) -> (r: Option<String>)
    ensures
        opt_view(r) == suggestion_query_spec(q@),
{
    let v = str_to_chars(q);
    let t = crate::text::trimmed_string(&v, 0, v.len());
    assert(v@.subrange(0, v@.len() as int) =~= v@);
    let l = to_lowercase(t.as_str());
    if l.as_str().unicode_len() == 0 {
        None
    } else {
        Some(l)
    }
}

/// At most 20 suggestions are given, whatever is asked.
pub fn suggestion_limit(limit: usize) -> (r: usize)
    ensures
        r == if limit < 20 { limit } else { 20 },
{
    if limit < 20 {
        limit
    } else {
        20
    }
}

/// Some suggestion already points to `path`.
pub open spec fn has_path(acc: Seq<(Seq<char>, Seq<char>)>, path: Seq<char>) -> bool {
    exists|k: int| 0 <= k < acc.len() && #[trigger] acc[k].1 == path
}

/// The notes whose lower-cased title starts with `q`, as `(title, path)`, in order.
pub open spec fn prefix_hits(ns: Seq<Note>, q: Seq<char>) -> Seq<(Seq<char>, Seq<char>)>
    decreases ns.len(),
{
    if ns.len() == 0 {
        Seq::empty()
    } else {
        let prev = prefix_hits(ns.drop_last(), q);
        let n = ns.last();
        if seq_starts_with(spec_to_lowercase(n.title@), q) {
            prev.push((n.title@, n.path@))
        } else {
            prev
        }
    }
}

/// `acc` extended by the notes whose lower-cased title contains `q` and whose path is
/// not yet suggested, while fewer than `limit` suggestions are held.
pub open spec fn contains_hits(
    acc: Seq<(Seq<char>, Seq<char>)>,
    ns: Seq<Note>,
    q: Seq<char>,
    limit: nat,
) -> Seq<(Seq<char>, Seq<char>)>
    decreases ns.len(),
{
    if ns.len() == 0 {
        acc
    } else {
        let prev = contains_hits(acc, ns.drop_last(), q, limit);
        let n = ns.last();
        if prev.len() < limit && !has_path(prev, n.path@) && contains_text(spec_to_lowercase(n.title@), q) {
            prev.push((n.title@, n.path@))
        } else {
            prev
        }
    }
}

/// `acc` extended by the further suggestions `more` whose path is not yet suggested,
/// while fewer than `limit` suggestions are held.
pub open spec fn merged_hits(
    acc: Seq<(Seq<char>, Seq<char>)>,
    more: Seq<(Seq<char>, Seq<char>)>,
    limit: nat,
) -> Seq<(Seq<char>, Seq<char>)>
    decreases more.len(),
{
    if more.len() == 0 {
        acc
    } else {
        let prev = merged_hits(acc, more.drop_last(), limit);
        let m = more.last();
        if prev.len() < limit && !has_path(prev, m.1) {
            prev.push(m)
        } else {
            prev
        }
    }
}

/// Whether some pair of `acc` has the path `path`.
fn holds_path(acc: &Vec<(String, String)>, path: &String) -> (b: bool)
    ensures
        b == has_path(crate::graph::pair_views(acc@), path@),
{
    let ghost pv = crate::graph::pair_views(acc@);
    let mut k: usize = 0;
    while k < acc.len()
        invariant
            k <= acc@.len(),
            pv == crate::graph::pair_views(acc@),
            forall|j: int| 0 <= j < k ==> pv[j].1 != path@,
        decreases acc@.len() - k,
    {
        assert(pv[k as int] == (acc@[k as int].0@, acc@[k as int].1@));
        if crate::text::str_eq(acc[k].1.as_str(), path.as_str()) {
            assert(pv[k as int].1 == path@);
            return true;
        }
        k += 1;
    }
    false
}

/// The suggestions that the notes themselves give for the normalised query `q`: every
/// note whose lower-cased title starts with `q`, then, up to `limit` suggestions in all,
/// those whose lower-cased title contains it (see `prefix_hits`, `contains_hits`).
pub fn local_suggestions(notes: &StrKeyMap<Note>, q: &str, limit: usize) -> (r: Vec<(String, String)>)
    ensures
        crate::graph::pair_views(r@) == contains_hits(
            prefix_hits(crate::indexer::note_values(*notes), q@),
            crate::indexer::note_values(*notes),
            q@,
            limit as nat,
        ),
{
    let ghost ns = crate::indexer::note_values(*notes);
    let qv = str_to_chars(q);
    let mut r: Vec<(String, String)> = Vec::new();
    let mut i: usize = 0;
    assert(ns.take(0) =~= Seq::<Note>::empty());
    while i < notes.len()
        invariant
            i <= ns.len(),
            ns == crate::indexer::note_values(*notes),
            qv@ == q@,
            crate::graph::pair_views(r@) == prefix_hits(ns.take(i as int), q@),
        decreases ns.len() - i,
    {
        let n = notes.value_at(i);
        let lower = to_lowercase(n.title.as_str());
        assert(ns.take(i + 1).drop_last() =~= ns.take(i as int));
        assert(ns[i as int] == *n);
        let ghost before = crate::graph::pair_views(r@);
        if starts_with(&str_to_chars(lower.as_str()), &qv) {
            r.push((n.title.clone(), n.path.clone()));
            assert(crate::graph::pair_views(r@) =~= before.push((n.title@, n.path@)));
        }
        i += 1;
    }
    assert(ns.take(ns.len() as int) =~= ns);
    let ghost first = crate::graph::pair_views(r@);
    let mut j: usize = 0;
    assert(ns.take(0) =~= Seq::<Note>::empty());
    while j < notes.len()
        invariant
            j <= ns.len(),
            ns == crate::indexer::note_values(*notes),
            qv@ == q@,
            crate::graph::pair_views(r@) == contains_hits(first, ns.take(j as int), q@, limit as nat),
        decreases ns.len() - j,
    {
        let n = notes.value_at(j);
        assert(ns.take(j + 1).drop_last() =~= ns.take(j as int));
        assert(ns[j as int] == *n);
        let ghost before = crate::graph::pair_views(r@);
        if r.len() < limit && !holds_path(&r, &n.path) {
            let lower = to_lowercase(n.title.as_str());
            if find_text(&str_to_chars(lower.as_str()), &qv) {
                r.push((n.title.clone(), n.path.clone()));
                assert(crate::graph::pair_views(r@) =~= before.push((n.title@, n.path@)));
            }
        }
        j += 1;
    }
    assert(ns.take(ns.len() as int) =~= ns);
    r
}

/// Adds the further suggestions `more` (see `merged_hits`).
pub fn merge_suggestions(results: &mut Vec<(String, String)>, more: &Vec<(String, String)>, limit: usize)
    ensures
        crate::graph::pair_views(final(results)@) == merged_hits(
            crate::graph::pair_views(old(results)@),
            crate::graph::pair_views(more@),
            limit as nat,
        ),
{
    let ghost start = crate::graph::pair_views(results@);
    let ghost mv = crate::graph::pair_views(more@);
    let mut i: usize = 0;
    assert(mv.take(0) =~= Seq::<(Seq<char>, Seq<char>)>::empty());
    while i < more.len()
        invariant
            i <= more@.len(),
            mv == crate::graph::pair_views(more@),
            crate::graph::pair_views(results@) == merged_hits(start, mv.take(i as int), limit as nat),
        decreases more@.len() - i,
    {
        assert(mv.take(i + 1).drop_last() =~= mv.take(i as int));
        assert(mv[i as int] == (more@[i as int].0@, more@[i as int].1@));
        let ghost before = crate::graph::pair_views(results@);
        if results.len() < limit && !holds_path(results, &more[i].1) {
            results.push((more[i].0.clone(), more[i].1.clone()));
            assert(crate::graph::pair_views(results@) =~= before.push(mv[i as int]));
        }
        i += 1;
    }
    assert(mv.take(more@.len() as int) =~= mv);
}
} // verus!
