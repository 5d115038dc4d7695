//! The git side of a sync: what to run, and how git's output is read.
//!
//! Running git is I/O; the decisions around it and the parsing of what it prints
//! are here.
use vstd::prelude::*;
use crate::config::views;
use crate::handlers::{all_hex, is_valid_commit_hash};
use crate::text::{
    chars_to_string_range, lines, lines_spec, matches_at, occurs_at, push_str, seq_ends_with, seq_starts_with,
    starts_with, str_to_chars, trim_ws, trimmed_string,
};
use crate::url::{decoded_or_empty, percent_decode_or_empty};

verus! {

/// One commit of a file's history.
pub struct CommitInfo {
    /// The full commit hash.
    pub hash: String,
    /// The first 8 characters of the hash, for display.
    pub hash_short: String,
    /// The author's e-mail address.
    pub author: String,
    /// The commit date as git prints it (ISO 8601).
    pub date: String,
    /// The first line of the commit message.
    pub subject: String,
}

/// The git client: it runs git in the vault's directory.
pub struct GitClient;

/// What a sync does with the vault directory before touching git.
#[derive(Clone, Copy, Debug, PartialEq, Eq, Structural)]
pub enum SyncStep {
    /// The directory is a repository: pull.
    Pull,
    /// The directory holds only hidden entries the application made: remove it, then clone.
    CleanThenClone,
    /// The directory holds the user's files and is no repository: refuse.
    Refuse,
    /// The directory does not exist: clone.
    Clone,
}

/// The first position at or after `k` that holds `c`, or `s.len()`.
pub open spec fn next_char(s: Seq<char>, c: char, k: int) -> int
    decreases s.len() - k,
{
    if k < 0 || k >= s.len() {
        s.len() as int
    } else if s[k] == c {
        k
    } else {
        next_char(s, c, k + 1)
    }
}

/// `next_char` lies between `k` and the end.
proof fn lemma_next_char(s: Seq<char>, c: char, k: int)
    requires
        0 <= k <= s.len(),
    ensures
        k <= next_char(s, c, k) <= s.len(),
        next_char(s, c, k) < s.len() ==> s[next_char(s, c, k)] == c,
    decreases s.len() - k,
{
    if k < s.len() && s[k] != c {
        lemma_next_char(s, c, k + 1);
    }
}

/// The fields of one `git log --format=%H|%ae|%ai|%s` line, as `splitn(4, '|')` cuts
/// it and each field trimmed: hash, short hash, author, date and subject; `None` where
/// the line has fewer than three `|`.
pub open spec fn commit_fields(line: Seq<char>) -> Option<(Seq<char>, Seq<char>, Seq<char>, Seq<char>, Seq<char>)> {
    let i1 = next_char(line, '|', 0);
    let i2 = next_char(line, '|', i1 + 1);
    let i3 = next_char(line, '|', i2 + 1);
    if i3 >= line.len() {
        None
    } else {
        let hash = trim_ws(line.subrange(0, i1));
        Some((
            hash,
            if hash.len() <= 8 { hash } else { hash.take(8) },
            trim_ws(line.subrange(i1 + 1, i2)),
            trim_ws(line.subrange(i2 + 1, i3)),
            trim_ws(line.subrange(i3 + 1, line.len() as int)),
        ))
    }
}

/// The commits of a `git log` listing, one per non-empty line that has all four fields.
pub open spec fn commits_spec(ls: Seq<Seq<char>>) -> Seq<(Seq<char>, Seq<char>, Seq<char>, Seq<char>, Seq<char>)>
    decreases ls.len(),
{
    if ls.len() == 0 {
        Seq::empty()
    } else {
        let prev = commits_spec(ls.drop_last());
        match commit_fields(ls.last()) {
            Some(f) => if ls.last().len() > 0 { prev.push(f) } else { prev },
            None => prev,
        }
    }
}

/// The fields of a commit record.
pub open spec fn commit_view(c: CommitInfo) -> (Seq<char>, Seq<char>, Seq<char>, Seq<char>, Seq<char>) {
    (c.hash@, c.hash_short@, c.author@, c.date@, c.subject@)
}

/// The non-empty lines of a listing.
pub open spec fn nonempty_lines(ls: Seq<Seq<char>>) -> Seq<Seq<char>>
    decreases ls.len(),
{
    if ls.len() == 0 {
        Seq::empty()
    } else if ls.last().len() > 0 {
        nonempty_lines(ls.drop_last()).push(ls.last())
    } else {
        nonempty_lines(ls.drop_last())
    }
}

/// The hash of git's empty tree, against which a first commit is compared.
pub const EMPTY_TREE: &'static str = "4b825dc642cb6eb9a060e54bf8d69288fbee4904";

impl GitClient {
    /// What a sync does with the vault directory: pull in a repository; remove a
    /// non-repository that holds only hidden entries and clone; refuse one that holds
    /// visible entries; clone where there is no directory.
    pub fn sync_step(dir_exists: bool, is_repository: bool, has_user_content: bool) -> (r: SyncStep)
        ensures
            r == (if !dir_exists {
                SyncStep::Clone
            } else if is_repository {
                SyncStep::Pull
            } else if has_user_content {
                SyncStep::Refuse
            } else {
                SyncStep::CleanThenClone
            }),
    {
        if !dir_exists {
            SyncStep::Clone
        } else if is_repository {
            SyncStep::Pull
        } else if has_user_content {
            SyncStep::Refuse
        } else {
            SyncStep::CleanThenClone
        }
    }

    /// The fields of one history line (see `commit_fields`).
    fn parse_commit_line(line: &String) -> (r: Option<CommitInfo>)
        ensures
            r is None <==> commit_fields(line@) is None,
            r matches Some(c) ==> commit_fields(line@) == Some(commit_view(c)),
    {
        let v = str_to_chars(line.as_str());
        let n = v.len();
        let i1 = Self::find_bar(&v, 0);
        if i1 >= n {
            return None;
        }
        let i2 = Self::find_bar(&v, i1 + 1);
        if i2 >= n {
            return None;
        }
        let i3 = Self::find_bar(&v, i2 + 1);
        if i3 >= n {
            return None;
        }
        let hash = trimmed_string(&v, 0, i1);
        let hv = str_to_chars(hash.as_str());
        let hash_short = if hv.len() <= 8 {
            hash.clone()
        } else {
            chars_to_string_range(&hv, 0, 8)
        };
        assert(hv@.len() > 8 ==> hv@.subrange(0, 8) =~= hv@.take(8));
        Some(CommitInfo {
            hash,
            hash_short,
            author: trimmed_string(&v, i1 + 1, i2),
            date: trimmed_string(&v, i2 + 1, i3),
            subject: trimmed_string(&v, i3 + 1, n),
        })
    }

    /// The first `|` at or after `k` (see `next_char`).
    fn find_bar(v: &Vec<char>, k: usize) -> (r: usize)
        requires
            k <= v@.len(),
        ensures
            r as int == next_char(v@, '|', k as int),
            k <= r <= v@.len(),
    {
        proof {
            lemma_next_char(v@, '|', k as int);
        }
        let mut j = k;
        while j < v.len() && v[j] != '|'
            invariant
                k <= j <= v@.len(),
                next_char(v@, '|', k as int) == next_char(v@, '|', j as int),
            decreases v@.len() - j,
        {
            j += 1;
        }
        j
    }

    /// The commits of a file's history from the output of
    /// `git log --follow --format=%H|%ae|%ai|%s` (see `commits_spec`).
    pub fn parse_file_history(output: &str) -> (r: Vec<CommitInfo>)
        ensures
            r@.map_values(|c: CommitInfo| commit_view(c)) == commits_spec(lines_spec(output@)),
    {
        let ls = lines(output);
        let ghost lv = lines_spec(output@);
        let mut r: Vec<CommitInfo> = Vec::new();
        let mut i: usize = 0;
        assert(lv.take(0) =~= Seq::<Seq<char>>::empty());
        while i < ls.len()
            invariant
                i <= ls@.len(),
                views(ls@) == lv,
                r@.map_values(|c: CommitInfo| commit_view(c)) == commits_spec(lv.take(i as int)),
            decreases ls@.len() - i,
        {
            let ghost before = r@.map_values(|c: CommitInfo| commit_view(c));
            assert(ls@[i as int]@ == lv[i as int]);
            assert(lv.take(i + 1).drop_last() =~= lv.take(i as int));
            assert(lv.take(i + 1).last() == lv[i as int]);
            if ls[i].as_str().unicode_len() > 0 {
                match Self::parse_commit_line(&ls[i]) {
                    Some(c) => {
                        let ghost cv = commit_view(c);
                        r.push(c);
                        assert(r@.map_values(|c: CommitInfo| commit_view(c)) =~= before.push(cv));
                    },
                    None => {},
                }
            }
            i += 1;
        }
        assert(lv.take(ls@.len() as int) =~= lv);
        r
    }

    /// The non-empty lines of git's output, such as a list of file names.
    pub fn output_paths(output: &str) -> (r: Vec<String>)
        ensures
            views(r@) == nonempty_lines(lines_spec(output@)),
    {
        let ls = lines(output);
        let ghost lv = lines_spec(output@);
        let mut r: Vec<String> = Vec::new();
        let mut i: usize = 0;
        assert(lv.take(0) =~= Seq::<Seq<char>>::empty());
        while i < ls.len()
            invariant
                i <= ls@.len(),
                views(ls@) == lv,
                views(r@) == nonempty_lines(lv.take(i as int)),
            decreases ls@.len() - i,
        {
            let ghost before = views(r@);
            assert(ls@[i as int]@ == lv[i as int]);
            assert(lv.take(i + 1).drop_last() =~= lv.take(i as int));
            if ls[i].as_str().unicode_len() > 0 {
                r.push(ls[i].clone());
                assert(views(r@) =~= before.push(lv[i as int]));
            }
            i += 1;
        }
        assert(lv.take(ls@.len() as int) =~= lv);
        r
    }

    /// The argument of `git show` for a file at a commit: `commit:path`.
    pub fn show_spec(commit: &str, file_rel_path: &str) -> (r: String)
        ensures
            r@ == commit@ + ":"@ + file_rel_path@,
    {
        let mut r = commit.to_string();
        push_str(&mut r, ":");
        push_str(&mut r, file_rel_path);
        r
    }

    /// The revision of a commit's first parent: `commit~1`.
    pub fn parent_rev(commit: &str) -> (r: String)
        ensures
            r@ == commit@ + "~1"@,
    {
        let mut r = commit.to_string();
        push_str(&mut r, "~1");
        r
    }
}


// ─── History requests ────────────────────────────────────────────────────────

/// The last position at or below `i` where `p` occurs in `s`.
pub open spec fn last_at(s: Seq<char>, p: Seq<char>, i: int) -> Option<int>
    decreases i + 1,
{
    if i < 0 {
        None
    } else if occurs_at(s, p, i) {
        Some(i)
    } else {
        last_at(s, p, i - 1)
    }
}

/// `\` turned into `/`.
pub open spec fn slashed(s: Seq<char>) -> Seq<char> {
    s.map_values(|c: char| if c == '\\' { '/' } else { c })
}

/// The note path and commit of a request for a note at a commit (or a commit's diff):
/// the part of the address after `/doc/` split at the last `sep`, both sides
/// percent-decoded (empty where not UTF-8), `\` turned into `/` in the path; `None`
/// without `sep`, for an empty path or for a commit that is not 4 to 64 hexadecimal
/// digits.
pub open spec fn history_target(after_doc: Seq<char>, sep: Seq<char>) -> Option<(Seq<char>, Seq<char>)> {
    match last_at(after_doc, sep, after_doc.len() - sep.len()) {
        None => None,
        Some(i) => {
            let p = slashed(decoded_or_empty(after_doc.take(i)));
            let c = decoded_or_empty(after_doc.skip(i + sep.len()));
            if p.len() > 0 && 4 <= c.len() <= 64 && all_hex(c) {
                Some((p, c))
            } else {
                None
            }
        },
    }
}

/// The text with `\` turned into `/`.
fn slash_string(s: &str) -> (r: String)
    ensures
        r@ == slashed(s@),
{
    let v = str_to_chars(s);
    let mut r = String::new();
    let mut i: usize = 0;
    while i < v.len()
        invariant
            i <= v@.len(),
            v@ == s@,
            r@ == slashed(v@.take(i as int)),
        decreases v@.len() - i,
    {
        let c = v[i];
        r.push(if c == '\\' { '/' } else { c });
        i += 1;
        assert(r@ =~= slashed(v@.take(i as int)));
    }
    assert(v@.take(v@.len() as int) =~= v@);
    r
}

/// The note path and commit of a request for a note at a commit (see `history_target`).
pub fn history_target_of(after_doc: &str, sep: &str) -> (r: Option<(String, String)>)
    ensures
        match history_target(after_doc@, sep@) {
            None => r is None,
            Some((p, c)) => r matches Some((rp, rc)) && rp@ == p && rc@ == c,
        },
{
    let v = str_to_chars(after_doc);
    let pv = str_to_chars(sep);
    if pv.len() > v.len() {
        assert(last_at(v@, pv@, v@.len() - pv@.len()) is None);
        return None;
    }
    let mut i: usize = v.len() - pv.len();
    let mut found = false;
    loop
        invariant_except_break
            i + pv@.len() <= v@.len(),
            !found,
            last_at(v@, pv@, v@.len() - pv@.len()) == last_at(v@, pv@, i as int),
        ensures
            i + pv@.len() <= v@.len(),
            found ==> occurs_at(v@, pv@, i as int),
            found ==> last_at(v@, pv@, v@.len() - pv@.len()) == Some(i as int),
            !found ==> last_at(v@, pv@, v@.len() - pv@.len()) is None,
        decreases i,
    {
        if matches_at(&v, i, &pv) {
            found = true;
            break;
        }
        if i == 0 {
            assert(last_at(v@, pv@, -1) is None);
            break;
        }
        i -= 1;
    }
    if !found {
        return None;
    }
    assert(occurs_at(v@, pv@, i as int));
    let head = chars_to_string_range(&v, 0, i);
    let tail = chars_to_string_range(&v, i + pv.len(), v.len());
    assert(v@.subrange(0, i as int) =~= after_doc@.take(i as int));
    assert(v@.subrange(i + pv@.len(), v@.len() as int) =~= after_doc@.skip(i + sep@.len()));
    let path = slash_string(percent_decode_or_empty(head.as_str()).as_str());
    let commit = percent_decode_or_empty(tail.as_str());
    if path.as_str().unicode_len() > 0 && is_valid_commit_hash(commit.as_str()) {
        Some((path, commit))
    } else {
        None
    }
}

/// The note path of a request for a note's history: the part of the address after
/// `/doc/`, without its `/history` ending (empty where it has none), percent-decoded
/// (empty where not UTF-8), `\` turned into `/`; `None` where that leaves nothing.
pub open spec fn history_list_target(after_doc: Seq<char>) -> Option<Seq<char>> {
    let stem = if seq_ends_with(after_doc, "/history"@) {
        after_doc.take(after_doc.len() - 8)
    } else {
        Seq::empty()
    };
    let p = slashed(decoded_or_empty(stem));
    if p.len() > 0 {
        Some(p)
    } else {
        None
    }
}

/// The note path of a request for a note's history (see `history_list_target`).
pub fn history_list_target_of(after_doc: &str) -> (r: Option<String>)
    ensures
        match history_list_target(after_doc@) {
            None => r is None,
            Some(p) => r matches Some(rp) && rp@ == p,
        },
{
    proof {
        reveal_strlit("/history");
    }
    let v = str_to_chars(after_doc);
    let suffix = str_to_chars("/history");
    let stem = if crate::text::ends_with(&v, &suffix) {
        let s = chars_to_string_range(&v, 0, v.len() - 8);
        assert(v@.subrange(0, v@.len() - 8) =~= after_doc@.take(after_doc@.len() - 8));
        s
    } else {
        String::new()
    };
    let path = slash_string(percent_decode_or_empty(stem.as_str()).as_str());
    if path.as_str().unicode_len() > 0 {
        Some(path)
    } else {
        None
    }
}

/// The commit shown for `commit`: the first of `commits` whose hash starts with it or
/// that it starts with; else one with that hash, its first eight characters as the short
/// hash, and nothing else.
pub open spec fn commit_info_spec(commits: Seq<CommitInfo>, commit: Seq<char>) -> (Seq<char>, Seq<char>, Seq<char>, Seq<char>, Seq<char>)
    decreases commits.len(),
{
    if commits.len() == 0 {
        (commit, commit.take(if commit.len() < 8 { commit.len() as int } else { 8 }), Seq::empty(), Seq::empty(), Seq::empty())
    } else if seq_starts_with(commits[0].hash@, commit) || seq_starts_with(commit, commits[0].hash@) {
        commit_view(commits[0])
    } else {
        commit_info_spec(commits.drop_first(), commit)
    }
}

/// The commit shown for `commit` (see `commit_info_spec`).
pub fn commit_info_for(commits: &Vec<CommitInfo>, commit: &str) -> (r: CommitInfo)
    ensures
        commit_view(r) == commit_info_spec(commits@, commit@),
{
    let cv = str_to_chars(commit);
    let mut i: usize = 0;
    assert(commits@.skip(0) =~= commits@);
    while i < commits.len()
        invariant
            i <= commits@.len(),
            cv@ == commit@,
            commit_info_spec(commits@, commit@) == commit_info_spec(commits@.skip(i as int), commit@),
        decreases commits@.len() - i,
    {
        let c = &commits[i];
        let hv = str_to_chars(c.hash.as_str());
        assert(commits@.skip(i as int)[0] == commits@[i as int]);
        assert(commits@.skip(i as int).drop_first() =~= commits@.skip(i + 1));
        if starts_with(&hv, &cv) || starts_with(&cv, &hv) {
            return CommitInfo {
                hash: c.hash.clone(),
                hash_short: c.hash_short.clone(),
                author: c.author.clone(),
                date: c.date.clone(),
                subject: c.subject.clone(),
            };
        }
        i += 1;
    }
    let n: usize = if cv.len() < 8 {
        cv.len()
    } else {
        8
    };
    let short = chars_to_string_range(&cv, 0, n);
    assert(cv@.subrange(0, n as int) =~= commit@.take(n as int));
    assert(commits@.skip(commits@.len() as int) =~= Seq::<CommitInfo>::empty());
    CommitInfo {
        hash: commit.to_string(),
        hash_short: short,
        author: String::new(),
        date: String::new(),
        subject: String::new(),
    }
}

} // verus!
