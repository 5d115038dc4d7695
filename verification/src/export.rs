//! The static-site export: one standalone HTML page per note, an index page and a
//! read-me, ready to be packed into an archive.
use vstd::prelude::*;
use crate::domain::Note;
use crate::graph::pair_views;
use crate::handlers::{html_path_spec, note_path_to_html};
use crate::keyed::StrKeyMap;
use crate::order::str_le;
use crate::sidebar::{key_views, sorted_keys};
use crate::config::views;
use crate::text::{decimal, html_escape, html_escape_spec, push_decimal, push_str};

verus! {

/// The style sheet of an exported page.
pub const EXPORT_CSS: &'static str = "body{display:flex;font-family:-apple-system,BlinkMacSystemFont,'Segoe UI',sans-serif;\nmargin:0;background:#fff;color:#222;line-height:1\u{2e}75;}\nnav{width:230px;min-height:100vh;padding:12px 8px;border-right:1px solid #e5e7eb;\nfont-size:12\u{2e}5px;overflow-y:auto;flex-shrink:0;position:sticky;top:0;max-height:100vh;}\nnav h2{font-size:13px;color:#6b7280;margin:0 0 8px;padding:0 4px;}\nnav ul{list-style:none;margin:0;padding:0;}\nnav li a{display:block;padding:3px 8px;border-radius:4px;text-decoration:none;\ncolor:#374151;overflow:hidden;text-overflow:ellipsis;white-space:nowrap;}\nnav li a:hover{background:#f3f4f6;}\nmain{flex:1;padding:32px 40px;max-width:780px;}\nh1{font-size:1\u{2e}7rem;margin-top:0;}\npre{background:#f8f9fa;padding:12px;border-radius:4px;overflow-x:auto;}\ncode{background:#f3f4f6;padding:1px 4px;border-radius:3px;font-size:0\u{2e}9em;}\nblockquote{border-left:3px solid #d1d5db;margin:0;padding:0 14px;color:#6b7280;}\nimg{max-width:100%;height:auto;}\ntable{border-collapse:collapse;width:100%;}\nth,td{border:1px solid #e5e7eb;padding:6px 10px;}\n@media(max-width:600px){body{flex-direction:column;}\nnav{width:100%;min-height:auto;max-height:200px;border-right:none;border-bottom:1px solid #e5e7eb;}}";

/// An exported page up to its title.
pub const PAGE_HEAD: &'static str = "<!DOCTYPE html>\n<html lang=\"zh-CN\">\n<head>\n<meta charset=\"UTF-8\">\n<meta name=\"viewport\" content=\"width=device-width, initial-scale=1\u{2e}0\">\n<title>";

/// What follows the title, up to the style sheet.
pub const PAGE_STYLE: &'static str = " - Obsidian Mirror Export</title>\n<style>";

/// What follows the style sheet, up to the list of all notes.
pub const PAGE_NAV: &'static str = "</style>\n</head>\n<body>\n<nav>\n  <h2>所有笔记</h2>\n  <ul>";

/// What follows the list of notes, up to the heading.
pub const PAGE_MAIN: &'static str = "</ul>\n</nav>\n<main>\n<h1>";

/// What follows the heading, before the content.
pub const PAGE_TITLE_END: &'static str = "</h1>\n";

/// The end of an exported page.
pub const PAGE_TAIL: &'static str = "\n</main>\n</body>\n</html>";

/// The export's index page up to the number of notes.
pub const INDEX_HEAD: &'static str = "<!DOCTYPE html>\n<html lang=\"zh-CN\">\n<head>\n<meta charset=\"UTF-8\">\n<meta name=\"viewport\" content=\"width=device-width, initial-scale=1\u{2e}0\">\n<title>Obsidian Mirror Export</title>\n<style>body{font-family:sans-serif;max-width:800px;margin:32px auto;padding:0 16px;}\nh1{font-size:1\u{2e}5rem;}ul{list-style:none;padding:0;}\nli a{display:block;padding:6px 8px;border-radius:4px;text-decoration:none;color:#374151;}\nli a:hover{background:#f3f4f6;}</style>\n</head>\n<body>\n<h1>Obsidian Mirror 笔记导出</h1>\n<p style=\"color:#6b7280\">共 ";

/// What follows the number of notes, up to the list.
pub const INDEX_LIST: &'static str = " 篇笔记</p>\n<ul>";

/// The end of the index page.
pub const INDEX_TAIL: &'static str = "</ul>\n</body>\n</html>";

/// The read-me file of the export.
pub const EXPORT_README: &'static str = "# Obsidian Mirror 静态导出\n\n将此 zip 解压后部署到任意 web 服务器（GitHub Pages / Netlify 等）即可浏览。\n\n- 笔记内部链接需 web 服务器才能正常工作\n- 搜索/认证等功能不包含在静态导出中\n";

/// One entry of a note list: a link to the note's exported page (its path after
/// `prefix`), the title escaped.
pub open spec fn nav_item(prefix: Seq<char>, path: Seq<char>, title: Seq<char>) -> Seq<char> {
    "<li><a href=\""@ + prefix + html_path_spec(path) + "\">"@ + html_escape_spec(title) + "</a></li>"@
}

/// The entries of a list of `(path, title)` pairs, joined by newlines.
pub open spec fn nav_list(prefix: Seq<char>, items: Seq<(Seq<char>, Seq<char>)>) -> Seq<char>
    decreases items.len(),
{
    if items.len() == 0 {
        Seq::empty()
    } else if items.len() == 1 {
        nav_item(prefix, items[0].0, items[0].1)
    } else {
        nav_list(prefix, items.drop_last()) + "\n"@ + nav_item(prefix, items.last().0, items.last().1)
    }
}

/// The standalone page of a note, with the list of all notes beside it.
pub open spec fn static_page(title: Seq<char>, content: Seq<char>, all: Seq<(Seq<char>, Seq<char>)>) -> Seq<char> {
    PAGE_HEAD@ + html_escape_spec(title) + PAGE_STYLE@ + EXPORT_CSS@ + PAGE_NAV@ + nav_list("/"@, all)
        + PAGE_MAIN@ + html_escape_spec(title) + PAGE_TITLE_END@ + content + PAGE_TAIL@
}

/// Appends the note list for `items` (see `nav_list`).
fn push_nav_list(s: &mut String, prefix: &str, items: &Vec<(String, String)>)
    ensures
        final(s)@ == old(s)@ + nav_list(prefix@, pair_views(items@)),
{
    let ghost start = s@;
    let ghost all = pair_views(items@);
    let mut i: usize = 0;
    assert(all.take(0) =~= Seq::<(Seq<char>, Seq<char>)>::empty());
    while i < items.len()
        invariant
            i <= items@.len(),
            all == pair_views(items@),
            s@ == start + nav_list(prefix@, all.take(i as int)),
        decreases items@.len() - i,
    {
        let ghost before = s@;
        if i > 0 {
            push_str(s, "\n");
        }
        push_str(s, "<li><a href=\"");
        push_str(s, prefix);
        push_str(s, note_path_to_html(items[i].0.as_str()).as_str());
        push_str(s, "\">");
        push_str(s, html_escape(items[i].1.as_str()).as_str());
        push_str(s, "</a></li>");
        proof {
            let t = all.take(i + 1);
            assert(t.drop_last() =~= all.take(i as int));
            assert(t.last() == all[i as int]);
            assert(all[i as int] == (items@[i as int].0@, items@[i as int].1@));
            if i == 0 {
                assert(t.len() == 1);
                assert(s@ =~= start + nav_list(prefix@, t));
            } else {
                assert(s@ =~= start + nav_list(prefix@, t));
            }
        }
        i += 1;
    }
    assert(all.take(items@.len() as int) =~= all);
}

/// The standalone export page of `note` (see `static_page`); `all_notes` holds the
/// `(path, title)` pairs of the list beside it.
pub fn build_static_note_html(note: &Note, all_notes: &Vec<(String, String)>) -> (r: String)
    ensures
        r@ == static_page(note.title@, note.content_html@, pair_views(all_notes@)),
{
    let title = html_escape(note.title.as_str());
    let mut s = PAGE_HEAD.to_string();
    push_str(&mut s, title.as_str());
    push_str(&mut s, PAGE_STYLE);
    push_str(&mut s, EXPORT_CSS);
    push_str(&mut s, PAGE_NAV);
    push_nav_list(&mut s, "/", all_notes);
    push_str(&mut s, PAGE_MAIN);
    push_str(&mut s, title.as_str());
    push_str(&mut s, PAGE_TITLE_END);
    push_str(&mut s, note.content_html.as_str());
    push_str(&mut s, PAGE_TAIL);
    s
}


/// The `(path, title)` pairs of all notes in ascending order of path.
pub open spec fn sorted_pairs(notes: StrKeyMap<Note>) -> Seq<(Seq<char>, Seq<char>)> {
    let keys = key_views(notes).sort_by(str_le());
    Seq::new(keys.len(), |k: int| (keys[k], notes@[keys[k]].title@))
}

/// The index page of the export: the number of notes and a link to each page.
pub open spec fn index_page(all: Seq<(Seq<char>, Seq<char>)>) -> Seq<char> {
    INDEX_HEAD@ + decimal(all.len()) + INDEX_LIST@ + nav_list(""@, all) + INDEX_TAIL@
}

/// The files of the export, as `(path, contents)`: one page per note in ascending order
/// of path, then the index page, then the read-me.
pub open spec fn export_files_ok(r: Seq<(Seq<char>, Seq<char>)>, notes: StrKeyMap<Note>) -> bool {
    let keys = key_views(notes).sort_by(str_le());
    let all = sorted_pairs(notes);
    &&& r.len() == keys.len() + 2
    &&& forall|k: int| 0 <= k < keys.len() ==> #[trigger] r[k] == (
        html_path_spec(keys[k]),
        static_page(notes@[keys[k]].title@, notes@[keys[k]].content_html@, all),
    )
    &&& r[keys.len() as int] == ("index.html"@, index_page(all))
    &&& r[keys.len() as int + 1] == ("README.md"@, EXPORT_README@)
}

/// The `(path, title)` pairs of the notes under `keys`, in that order.
fn pairs_of(notes: &StrKeyMap<Note>, keys: &Vec<String>) -> (r: Vec<(String, String)>)
    requires
        forall|x: Seq<char>| #[trigger] views(keys@).contains(x) ==> notes@.contains_key(x),
    ensures
        pair_views(r@) == Seq::new(keys@.len(), |k: int| (keys@[k]@, notes@[keys@[k]@].title@)),
{
    let mut r: Vec<(String, String)> = Vec::new();
    let mut k: usize = 0;
    while k < keys.len()
        invariant
            k <= keys@.len(),
            forall|x: Seq<char>| #[trigger] views(keys@).contains(x) ==> notes@.contains_key(x),
            pair_views(r@) == Seq::new(k as nat, |j: int| (keys@[j]@, notes@[keys@[j]@].title@)),
        decreases keys@.len() - k,
    {
        let key = &keys[k];
        assert(views(keys@)[k as int] == key@);
        assert(views(keys@).contains(key@));
        let title = match notes.get(key.as_str()) {
            Some(note) => note.title.clone(),
            None => String::new(),
        };
        let ghost before = pair_views(r@);
        let ghost tv = title@;
        assert(tv == notes@[key@].title@);
        r.push((key.clone(), title));
        assert(pair_views(r@) =~= before.push((key@, tv)));
        assert(pair_views(r@) =~= Seq::new((k + 1) as nat, |j: int| (keys@[j]@, notes@[keys@[j]@].title@)));
        k += 1;
    }
    r
}

/// The static-site export of all notes (see `export_files_ok`).
pub fn export_site(notes: &StrKeyMap<Note>) -> (r: Vec<(String, String)>)
    ensures
        export_files_ok(pair_views(r@), *notes),
{
    let keys = sorted_keys(notes);
    let all = pairs_of(notes, &keys);
    let ghost ks = key_views(*notes).sort_by(str_le());
    assert(pair_views(all@) =~= sorted_pairs(*notes));
    let mut r: Vec<(String, String)> = Vec::new();
    let mut k: usize = 0;
    while k < keys.len()
        invariant
            k <= keys@.len(),
            views(keys@) == ks,
            forall|x: Seq<char>| #[trigger] views(keys@).contains(x) ==> notes@.contains_key(x),
            pair_views(all@) == sorted_pairs(*notes),
            r@.len() == k,
            forall|j: int| 0 <= j < k ==> #[trigger] pair_views(r@)[j] == (
                html_path_spec(ks[j]),
                static_page(notes@[ks[j]].title@, notes@[ks[j]].content_html@, sorted_pairs(*notes)),
            ),
        decreases keys@.len() - k,
    {
        let key = &keys[k];
        assert(views(keys@)[k as int] == key@);
        assert(views(keys@).contains(key@));
        let page = match notes.get(key.as_str()) {
            Some(note) => build_static_note_html(note, &all),
            None => String::new(),
        };
        let ghost before = r@;
        let hp = note_path_to_html(key.as_str());
        assert(page@ == static_page(notes@[ks[k as int]].title@, notes@[ks[k as int]].content_html@, sorted_pairs(*notes)));
        r.push((hp, page));
        assert(pair_views(r@)[k as int] == (r@[k as int].0@, r@[k as int].1@));
        assert forall|j: int| 0 <= j < k + 1 implies #[trigger] pair_views(r@)[j] == (
            html_path_spec(ks[j]),
            static_page(notes@[ks[j]].title@, notes@[ks[j]].content_html@, sorted_pairs(*notes)),
        ) by {
            if j < k {
                assert(r@[j] == before[j]);
                assert(pair_views(before)[j] == (before[j].0@, before[j].1@));
                assert(pair_views(r@)[j] == (r@[j].0@, r@[j].1@));
            }
        }
        k += 1;
    }
    let mut index = INDEX_HEAD.to_string();
    push_decimal(&mut index, all.len() as u128);
    push_str(&mut index, INDEX_LIST);
    push_nav_list(&mut index, "", &all);
    push_str(&mut index, INDEX_TAIL);
    let ghost body = r@;
    r.push(("index.html".to_string(), index));
    r.push(("README.md".to_string(), EXPORT_README.to_string()));
    let n = keys.len();
    assert(pair_views(r@)[n as int] == (r@[n as int].0@, r@[n as int].1@));
    assert(pair_views(r@)[n as int + 1] == (r@[n as int + 1].0@, r@[n as int + 1].1@));
    assert forall|j: int| 0 <= j < n implies #[trigger] pair_views(r@)[j] == pair_views(body)[j] by {
        assert(r@[j] == body[j]);
        assert(pair_views(body)[j] == (body[j].0@, body[j].1@));
        assert(pair_views(r@)[j] == (r@[j].0@, r@[j].1@));
    }
    r
}

} // verus!
