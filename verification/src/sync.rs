//! The decisions of a sync: what to do after the git step, which notes to re-process,
//! the progress events, the bounded sync history, and the offline search entries.
use vstd::prelude::*;
use crate::config::{clone_strings, views};
use crate::domain::Note;
use crate::graph::{mtime_secs, note_mtime_secs};
use crate::keyed::StrKeyMap;
use crate::scanner::{component_ignored, path_ignored, path_is_ignored};
use crate::text::{ascii_lower_seq, collapse_ws, collapse_whitespace, str_eq, str_to_chars};

verus! {

// ─── Progress events and history ─────────────────────────────────────────────

/// A progress event of a sync, pushed to the browser.
#[derive(Clone)]
pub struct SyncProgressEvent {
    /// Stage: starting, git, scan, markdown, index, search, persist, done or error.
    pub stage: String,
    /// Progress in percent.
    pub progress: u8,
    pub message: String,
    pub notes_processed: Option<usize>,
    pub total_notes: Option<usize>,
}

impl SyncProgressEvent {
    /// An event with a stage, a progress and a message, and no counts.
    pub fn new(stage: &str, progress: u8, message: &str) -> (e: Self)
        ensures
            e.stage@ == stage@,
            e.progress == progress,
            e.message@ == message@,
            e.notes_processed is None,
            e.total_notes is None,
    {
        SyncProgressEvent {
            stage: stage.to_owned(),
            progress,
            message: message.to_owned(),
            notes_processed: None,
            total_notes: None,
        }
    }
}

/// One finished sync.
pub struct SyncRecord {
    /// Start, in seconds since the Unix epoch.
    pub started_at: i64,
    /// End, in seconds since the Unix epoch.
    pub finished_at: i64,
    /// Number of notes afterwards.
    pub notes_count: usize,
    /// `completed` or `failed`.
    pub status: String,
    /// Why it failed, for a failed sync.
    pub error_msg: Option<String>,
    pub duration_ms: u64,
}

impl SyncRecord {
    /// The record of a sync that completed.
    pub fn completed(started_at: i64, finished_at: i64, notes_count: usize, duration_ms: u64) -> (r: Self)
        ensures
            r.started_at == started_at,
            r.finished_at == finished_at,
            r.notes_count == notes_count,
            r.status@ == "completed"@,
            r.error_msg is None,
            r.duration_ms == duration_ms,
    {
        SyncRecord {
            started_at,
            finished_at,
            notes_count,
            status: "completed".to_owned(),
            error_msg: None,
            duration_ms,
        }
    }
}

/// The sync status of an idle vault.
pub const SYNC_IDLE: u8 = 0;
/// The sync status while a sync runs.
pub const SYNC_RUNNING: u8 = 1;
/// The sync status after a sync failed.
pub const SYNC_FAILED: u8 = 2;

/// What a finished sync leaves behind: the new status, the finish time and duration to
/// report as the last sync (only after a success), and the record for the history.
pub struct SyncFinish {
    pub status: u8,
    pub last_sync: Option<(i64, u64)>,
    pub record: SyncRecord,
}

/// The bookkeeping after a sync that started at `started` and ended at `finished`
/// (seconds since the epoch) after `duration_ms`, with `notes_count` notes afterwards:
/// a success leaves the status idle, reports the finish time and duration, and records a
/// completed sync; a failure leaves the status failed, reports nothing, and records a
/// failed sync with its reason.
pub fn finish_sync(result: &Result<(), String>, started: i64, finished: i64, notes_count: usize, duration_ms: u64) -> (f:
    SyncFinish)
    ensures
        f.record.started_at == started,
        f.record.finished_at == finished,
        f.record.notes_count == notes_count,
        f.record.duration_ms == duration_ms,
        match result {
            Ok(_) => {
                &&& f.status == SYNC_IDLE
                &&& f.last_sync == Some((finished, duration_ms))
                &&& f.record.status@ == "completed"@
                &&& f.record.error_msg is None
            },
            Err(m) => {
                &&& f.status == SYNC_FAILED
                &&& f.last_sync is None
                &&& f.record.status@ == "failed"@
                &&& f.record.error_msg matches Some(e) && e@ == m@
            },
        },
{
    match result {
        Ok(_) => SyncFinish {
            status: SYNC_IDLE,
            last_sync: Some((finished, duration_ms)),
            record: SyncRecord::completed(started, finished, notes_count, duration_ms),
        },
        Err(m) => SyncFinish {
            status: SYNC_FAILED,
            last_sync: None,
            record: SyncRecord {
                started_at: started,
                finished_at: finished,
                notes_count,
                status: "failed".to_owned(),
                error_msg: Some(m.clone()),
                duration_ms,
            },
        },
    }
}

/// The number of records the history keeps.
pub const HISTORY_LIMIT: usize = 10;

/// The last `n` elements of `s` (all of them when there are fewer).
pub open spec fn keep_last<A>(s: Seq<A>, n: nat) -> Seq<A> {
    if s.len() > n {
        s.skip(s.len() - n)
    } else {
        s
    }
}

/// The history of finished syncs, oldest first, holding at most `HISTORY_LIMIT` records.
pub struct SyncHistory {
    records: Vec<SyncRecord>,
}

impl View for SyncHistory {
    type V = Seq<SyncRecord>;

    closed spec fn view(&self) -> Seq<SyncRecord> {
        self.records@
    }
}

impl SyncHistory {
    #[verifier::type_invariant]
    closed spec fn inv(self) -> bool {
        self.records@.len() <= HISTORY_LIMIT
    }

    /// An empty history.
    pub fn new() -> (h: Self)
        ensures
            h@ == Seq::<SyncRecord>::empty(),
    {
        SyncHistory { records: Vec::new() }
    }

    /// The number of records, at most `HISTORY_LIMIT`.
    pub fn len(&self) -> (n: usize)
        ensures
            n == self@.len(),
            n <= HISTORY_LIMIT,
    {
        proof {
            use_type_invariant(self);
        }
        self.records.len()
    }

    /// The records, oldest first.
    pub fn records(&self) -> (r: &Vec<SyncRecord>)
        ensures
            r@ == self@,
    {
        &self.records
    }

    /// Appends a record, dropping the oldest one when the history is full.
    pub fn push(&mut self, r: SyncRecord)
        ensures
            final(self)@ == keep_last(old(self)@.push(r), HISTORY_LIMIT as nat),
            final(self)@.len() <= HISTORY_LIMIT,
    {
        proof {
            use_type_invariant(&*self);
        }
        let mut recs: Vec<SyncRecord> = Vec::new();
        std::mem::swap(&mut recs, &mut self.records);
        let ghost old_recs = recs@;
        if recs.len() >= HISTORY_LIMIT {
            recs.remove(0);
        }
        recs.push(r);
        proof {
            let full = old_recs.push(r);
            if old_recs.len() >= HISTORY_LIMIT {
                assert(recs@ =~= full.skip(full.len() - HISTORY_LIMIT));
            }
        }
        self.records = recs;
    }
}

/// The history keeps exactly the latest `HISTORY_LIMIT` records: pushing records one by
/// one onto a history gives the last `HISTORY_LIMIT` of the history followed by them.
pub proof fn lemma_history_keeps_latest(h: Seq<SyncRecord>, r: SyncRecord)
    ensures
        keep_last(keep_last(h, HISTORY_LIMIT as nat).push(r), HISTORY_LIMIT as nat) == keep_last(
            h.push(r),
            HISTORY_LIMIT as nat,
        ),
{
    let n = HISTORY_LIMIT as nat;
    let k = keep_last(h, n);
    assert(keep_last(k.push(r), n) =~= keep_last(h.push(r), n));
}

// ─── Which notes to re-process ───────────────────────────────────────────────

/// A note needs processing unless it is known and the file is not newer than it.
pub open spec fn needs_update(existing: Map<Seq<char>, Note>, path: Seq<char>, file_mtime: Option<u128>) -> bool {
    match file_mtime {
        Some(m) => !existing.contains_key(path) || m > existing[path].mtime,
        None => true,
    }
}

/// Whether the note at `relative_path` must be processed again: it is new, its file's
/// modification time (nanoseconds since the epoch, `None` when it cannot be read) is
/// later than the known note's, or the time cannot be read.
pub fn should_update_note(relative_path: &str, file_mtime: Option<u128>, existing_notes: &StrKeyMap<Note>) -> (b:
    bool)
    ensures
        b == needs_update(existing_notes@, relative_path@, file_mtime),
{
    match existing_notes.get(relative_path) {
        Some(note) => match file_mtime {
            Some(m) => m > note.mtime,
            None => true,
        },
        None => true,
    }
}

// ─── What to do after the git step ───────────────────────────────────────────

/// A path reported by git, with its components and extension as `std::path` reads them.
pub struct ChangedPath {
    /// The path as text.
    pub text: String,
    /// Its components, in order.
    pub components: Vec<String>,
    /// The extension of its file name, if any.
    pub extension: Option<String>,
}

/// The outcome of the git step.
pub enum SyncResult {
    /// The vault was cloned: every file is new.
    InitialClone,
    /// New commits were pulled, with the files they add or modify and those they delete.
    IncrementalUpdate { changed: Vec<ChangedPath>, deleted: Vec<ChangedPath> },
    /// Nothing was pulled.
    NoChange,
}

/// What a sync does after the git step.
pub enum SyncPlan {
    /// Stop: the notes in memory are current; rebuild the file index first if it is empty.
    Finish { rebuild_file_index: bool },
    /// Try to restore the persisted indexes; process the whole vault if that fails.
    Restore,
    /// Scan and process the whole vault.
    Full,
    /// Process the changed notes (by path) and drop the deleted ones (by path with `/`).
    Incremental { process: Vec<String>, delete: Vec<String> },
}

/// A changed path is a note to act on: a `.md` file outside hidden and ignored
/// directories.
pub open spec fn is_note_change(p: ChangedPath, patterns: Seq<Seq<char>>) -> bool {
    (p.extension matches Some(e) && e@ == "md"@) && !path_ignored(views(p.components@), patterns)
}

/// The texts of the note changes among `ps`, in order.
pub open spec fn note_changes(ps: Seq<ChangedPath>, patterns: Seq<Seq<char>>) -> Seq<Seq<char>>
    decreases ps.len(),
{
    if ps.len() == 0 {
        Seq::empty()
    } else {
        note_changes(ps.drop_last(), patterns) + if is_note_change(ps.last(), patterns) {
            seq![ps.last().text@]
        } else {
            Seq::empty()
        }
    }
}

/// A path with `\` turned into `/`.
pub open spec fn slash_path(s: Seq<char>) -> Seq<char> {
    s.map_values(|c: char| if c == '\\' { '/' } else { c })
}

/// What to do after the git step: with no change, stop when notes are in memory (rebuilding
/// an empty file index) and restore otherwise; after a clone, process everything; after a
/// pull, process the changed notes and drop the deleted ones.
pub open spec fn sync_plan_spec(
    result: SyncResult,
    notes_in_memory: nat,
    file_index_len: nat,
    patterns: Seq<Seq<char>>,
) -> (bool, bool, bool, Seq<Seq<char>>, Seq<Seq<char>>) {
    match result {
        SyncResult::NoChange => if notes_in_memory > 0 {
            (true, file_index_len == 0, false, Seq::empty(), Seq::empty())
        } else {
            (false, false, true, Seq::empty(), Seq::empty())
        },
        SyncResult::InitialClone => (false, false, false, Seq::empty(), Seq::empty()),
        SyncResult::IncrementalUpdate { changed, deleted } => (
            false,
            false,
            false,
            note_changes(changed@, patterns),
            note_changes(deleted@, patterns).map_values(|s: Seq<char>| slash_path(s)),
        ),
    }
}

/// A plan taken apart: finish, rebuild the file index, restore, paths to process, paths to
/// drop.
pub open spec fn plan_view(p: SyncPlan) -> (bool, bool, bool, Seq<Seq<char>>, Seq<Seq<char>>) {
    match p {
        SyncPlan::Finish { rebuild_file_index } => (true, rebuild_file_index, false, Seq::empty(), Seq::empty()),
        SyncPlan::Restore => (false, false, true, Seq::empty(), Seq::empty()),
        SyncPlan::Full => (false, false, false, Seq::empty(), Seq::empty()),
        SyncPlan::Incremental { process, delete } => (false, false, false, views(process@), views(delete@)),
    }
}

/// `s` with `\` turned into `/`.
pub fn to_slash_path(s: &str) -> (r: String)
    ensures
        r@ == slash_path(s@),
{
    let v = str_to_chars(s);
    let mut r = String::new();
    let mut i: usize = 0;
    while i < v.len()
        invariant
            i <= v@.len(),
            v@ == s@,
            r@ == slash_path(v@.take(i as int)),
        decreases v@.len() - i,
    {
        let c = v[i];
        if c == '\\' {
            r.push('/');
        } else {
            r.push(c);
        }
        i += 1;
        assert(r@ =~= slash_path(v@.take(i as int)));
    }
    assert(v@.take(v@.len() as int) =~= v@);
    r
}

/// The note changes among `ps`: their texts, or their texts with `/` separators.
fn select_note_changes(ps: &Vec<ChangedPath>, patterns: &Vec<String>, slashes: bool) -> (r: Vec<String>)
    ensures
        views(r@) == (if slashes {
            note_changes(ps@, views(patterns@)).map_values(|s: Seq<char>| slash_path(s))
        } else {
            note_changes(ps@, views(patterns@))
        }),
{
    let ghost pv = views(patterns@);
    let mut r: Vec<String> = Vec::new();
    let mut i: usize = 0;
    assert(ps@.take(0) =~= Seq::<ChangedPath>::empty());
    while i < ps.len()
        invariant
            i <= ps@.len(),
            pv == views(patterns@),
            views(r@) == (if slashes {
                note_changes(ps@.take(i as int), pv).map_values(|s: Seq<char>| slash_path(s))
            } else {
                note_changes(ps@.take(i as int), pv)
            }),
        decreases ps@.len() - i,
    {
        let p = &ps[i];
        let ghost before = views(r@);
        proof {
            assert(ps@.take(i + 1).drop_last() =~= ps@.take(i as int));
            assert(ps@.take(i + 1).last() == *p);
        }
        let is_md = match &p.extension {
            Some(e) => str_eq(e.as_str(), "md"),
            None => false,
        };
        if is_md && !path_is_ignored(&p.components, patterns) {
            if slashes {
                r.push(to_slash_path(p.text.as_str()));
            } else {
                r.push(p.text.clone());
            }
            assert(views(r@) =~= before + seq![views(r@).last()]);
        } else {
            assert(views(r@) =~= before);
        }
        i += 1;
    }
    assert(ps@.take(ps@.len() as int) =~= ps@);
    r
}

/// What to do after the git step (see `sync_plan_spec`).
pub fn plan_sync(result: &SyncResult, notes_in_memory: usize, file_index_len: usize, ignore_patterns: &Vec<String>) -> (p:
    SyncPlan)
    ensures
        plan_view(p) == sync_plan_spec(*result, notes_in_memory as nat, file_index_len as nat, views(ignore_patterns@)),
        result matches SyncResult::IncrementalUpdate { changed, deleted } ==> p matches SyncPlan::Incremental {
            process,
            delete,
        } && views(process@) == changed@.filter(|d: ChangedPath| names_note(d, views(ignore_patterns@))).map_values(
            |d: ChangedPath| d.text@,
        ) && views(delete@) == deleted@.filter(|d: ChangedPath| names_note(d, views(ignore_patterns@))).map_values(
            |d: ChangedPath| slash_path(d.text@),
        ),
{
    proof {
        if result is IncrementalUpdate {
            lemma_incremental_plan(*result, notes_in_memory as nat, file_index_len as nat, views(ignore_patterns@));
        }
    }
    match result {
        SyncResult::NoChange => {
            if notes_in_memory > 0 {
                SyncPlan::Finish { rebuild_file_index: file_index_len == 0 }
            } else {
                SyncPlan::Restore
            }
        },
        SyncResult::InitialClone => SyncPlan::Full,
        SyncResult::IncrementalUpdate { changed, deleted } => {
            let process = select_note_changes(changed, ignore_patterns, false);
            let delete = select_note_changes(deleted, ignore_patterns, true);
            SyncPlan::Incremental { process, delete }
        },
    }
}

/// A path component that the scan keeps: not hidden (it does not start with `.`) and
/// equal to no ignore pattern, ASCII case aside.
pub open spec fn component_kept(c: Seq<char>, patterns: Seq<Seq<char>>) -> bool {
    &&& !(c.len() > 0 && c[0] == '.')
    &&& forall|j: int| 0 <= j < patterns.len() ==> ascii_lower_seq(c) != ascii_lower_seq(#[trigger] patterns[j])
}

/// A path reported by git names a note: its file has the extension `md` and every
/// component of it is kept.
pub open spec fn names_note(d: ChangedPath, patterns: Seq<Seq<char>>) -> bool {
    &&& d.extension matches Some(e) && e@ == "md"@
    &&& forall|i: int| 0 <= i < d.components@.len() ==> component_kept(#[trigger] d.components@[i]@, patterns)
}

/// What a filter keeps comes from the filtered sequence.
proof fn lemma_filter_from(s: Seq<ChangedPath>, pred: spec_fn(ChangedPath) -> bool, k: int)
    requires
        0 <= k < s.filter(pred).len(),
    ensures
        s.contains(s.filter(pred)[k]),
    decreases s.len(),
{
    reveal(Seq::filter);
    let prev = s.drop_last();
    let fp = prev.filter(pred);
    if pred(s.last()) && k == fp.len() {
        assert(s[s.len() - 1] == s.filter(pred)[k]);
    } else {
        assert(s.filter(pred)[k] == fp[k]);
        lemma_filter_from(prev, pred, k);
        let i = choose|i: int| 0 <= i < prev.len() && prev[i] == fp[k];
        assert(s[i] == prev[i]);
    }
}

/// The note paths among `ps`: exactly the reported paths that name notes, in order.
pub proof fn lemma_note_changes_are_notes(ps: Seq<ChangedPath>, patterns: Seq<Seq<char>>)
    ensures
        note_changes(ps, patterns) == ps.filter(|d: ChangedPath| names_note(d, patterns)).map_values(
            |d: ChangedPath| d.text@,
        ),
    decreases ps.len(),
{
    reveal(Seq::filter);
    let pred = |d: ChangedPath| names_note(d, patterns);
    if ps.len() > 0 {
        let prev = ps.drop_last();
        let d = ps.last();
        lemma_note_changes_are_notes(prev, patterns);
        let cs = views(d.components@);
        assert(!path_ignored(cs, patterns) <==> forall|i: int|
            0 <= i < d.components@.len() ==> component_kept(#[trigger] d.components@[i]@, patterns)) by {
            if path_ignored(cs, patterns) {
                let i = choose|i: int| 0 <= i < cs.len() && component_ignored(#[trigger] cs[i], patterns);
                assert(cs[i] == d.components@[i]@);
                assert(!component_kept(d.components@[i]@, patterns));
            } else {
                assert forall|i: int| 0 <= i < d.components@.len() implies component_kept(
                    #[trigger] d.components@[i]@,
                    patterns,
                ) by {
                    assert(cs[i] == d.components@[i]@);
                    assert(!component_ignored(cs[i], patterns));
                }
            }
        }
        assert(is_note_change(d, patterns) == names_note(d, patterns));
        let f = ps.filter(pred);
        assert(f == if pred(d) { prev.filter(pred).push(d) } else { prev.filter(pred) });
        if pred(d) {
            assert(f.map_values(|d: ChangedPath| d.text@) =~= prev.filter(pred).map_values(|d: ChangedPath| d.text@)
                + seq![d.text@]);
        } else {
            assert(f.map_values(|d: ChangedPath| d.text@) =~= prev.filter(pred).map_values(|d: ChangedPath| d.text@)
                + Seq::<Seq<char>>::empty());
        }
    } else {
        assert(ps.filter(pred).map_values(|d: ChangedPath| d.text@) =~= Seq::<Seq<char>>::empty());
    }
}

/// The note changes of a pull, listed as the plan lists them, are exactly the reported
/// paths that name notes.
proof fn lemma_incremental_lists(
    changed: Seq<ChangedPath>,
    deleted: Seq<ChangedPath>,
    process: Seq<Seq<char>>,
    delete: Seq<Seq<char>>,
    patterns: Seq<Seq<char>>,
)
    requires
        process == note_changes(changed, patterns),
        delete == note_changes(deleted, patterns).map_values(|s: Seq<char>| slash_path(s)),
    ensures
        process == changed.filter(|d: ChangedPath| names_note(d, patterns)).map_values(|d: ChangedPath| d.text@),
        delete == deleted.filter(|d: ChangedPath| names_note(d, patterns)).map_values(
            |d: ChangedPath| slash_path(d.text@),
        ),
        forall|i: int|
            0 <= i < deleted.len() && names_note(#[trigger] deleted[i], patterns) ==> delete.contains(
                slash_path(deleted[i].text@),
            ),
        forall|k: int|
            0 <= k < delete.len() ==> #[trigger] delete[k] == delete[k] && exists|i: int|
                0 <= i < deleted.len() && names_note(#[trigger] deleted[i], patterns) && delete[k] == slash_path(
                    deleted[i].text@,
                ),
{
    broadcast use vstd::seq_lib::group_filter_ensures;
    lemma_note_changes_are_notes(changed, patterns);
    lemma_note_changes_are_notes(deleted, patterns);
    let pred = |d: ChangedPath| names_note(d, patterns);
    let f = deleted.filter(pred);
    assert(delete =~= f.map_values(|d: ChangedPath| slash_path(d.text@)));
    assert forall|i: int| 0 <= i < deleted.len() && names_note(#[trigger] deleted[i], patterns) implies delete.contains(
        slash_path(deleted[i].text@),
    ) by {
        assert(pred(deleted[i]));
        deleted.lemma_filter_contains(pred, i);
        let j = choose|j: int| 0 <= j < f.len() && f[j] == deleted[i];
        assert(delete[j] == slash_path(deleted[i].text@));
    }
    assert forall|k: int| 0 <= k < delete.len() implies #[trigger] delete[k] == delete[k] && exists|i: int|
        0 <= i < deleted.len() && names_note(#[trigger] deleted[i], patterns) && delete[k] == slash_path(
            deleted[i].text@,
        ) by {
        deleted.lemma_filter_pred(pred, k);
        lemma_filter_from(deleted, pred, k);
        let i = choose|i: int| 0 <= i < deleted.len() && deleted[i] == f[k];
        assert(delete[k] == slash_path(f[k].text@));
    }
}

/// After a pull the plan processes exactly the changed paths that name notes, in order,
/// and drops exactly the deleted paths that name notes, in order, written with `/`: every
/// deleted note is dropped and nothing else is.
pub proof fn lemma_incremental_plan(
    result: SyncResult,
    notes_in_memory: nat,
    file_index_len: nat,
    patterns: Seq<Seq<char>>,
)
    requires
        result is IncrementalUpdate,
    ensures
        ({
            let plan = sync_plan_spec(result, notes_in_memory, file_index_len, patterns);
            let changed = result->changed@;
            let deleted = result->deleted@;
            &&& !plan.0 && !plan.2
            &&& plan.3 == changed.filter(|d: ChangedPath| names_note(d, patterns)).map_values(|d: ChangedPath| d.text@)
            &&& plan.4 == deleted.filter(|d: ChangedPath| names_note(d, patterns)).map_values(
                |d: ChangedPath| slash_path(d.text@),
            )
            &&& forall|i: int|
                0 <= i < deleted.len() && names_note(#[trigger] deleted[i], patterns) ==> plan.4.contains(
                    slash_path(deleted[i].text@),
                )
        }),
{
    let changed = result->changed@;
    let deleted = result->deleted@;
    lemma_incremental_lists(
        changed,
        deleted,
        note_changes(changed, patterns),
        note_changes(deleted, patterns).map_values(|s: Seq<char>| slash_path(s)),
        patterns,
    );
}

/// What to do after trying to restore the persisted indexes: stop (with the file index
/// rebuilt) when they were restored, process the whole vault otherwise.
pub fn plan_after_restore(restored: bool) -> (p: SyncPlan)
    ensures
        restored ==> plan_view(p) == plan_view(SyncPlan::Finish { rebuild_file_index: true }),
        !restored ==> plan_view(p) == plan_view(SyncPlan::Full),
{
    if restored {
        SyncPlan::Finish { rebuild_file_index: true }
    } else {
        SyncPlan::Full
    }
}

// ─── Offline search index ────────────────────────────────────────────────────

/// HTML with its tags removed: text inside `<...>` is dropped and each `>` becomes a
/// space.
pub open spec fn strip_tags_raw(s: Seq<char>) -> (Seq<char>, bool)
    decreases s.len(),
{
    if s.len() == 0 {
        (Seq::empty(), false)
    } else {
        let (out, in_tag) = strip_tags_raw(s.drop_last());
        let c = s.last();
        if c == '<' {
            (out, true)
        } else if c == '>' {
            (out.push(' '), false)
        } else if !in_tag {
            (out.push(c), in_tag)
        } else {
            (out, in_tag)
        }
    }
}

/// The plain text of HTML: tags removed and whitespace collapsed to single spaces.
pub open spec fn strip_html_spec(s: Seq<char>) -> Seq<char> {
    collapse_ws(strip_tags_raw(s).0)
}

/// The plain text of an HTML fragment (see `strip_html_spec`).
pub fn strip_html_tags(html: &str) -> (r: String)
    ensures
        r@ == strip_html_spec(html@),
{
    let v = str_to_chars(html);
    let mut text: Vec<char> = Vec::new();
    let mut in_tag = false;
    let mut i: usize = 0;
    assert(v@.take(0) =~= Seq::<char>::empty());
    while i < v.len()
        invariant
            i <= v@.len(),
            v@ == html@,
            (text@, in_tag) == strip_tags_raw(v@.take(i as int)),
        decreases v@.len() - i,
    {
        let c = v[i];
        proof {
            assert(v@.take(i + 1).drop_last() =~= v@.take(i as int));
            assert(v@.take(i + 1).last() == c);
        }
        if c == '<' {
            in_tag = true;
        } else if c == '>' {
            in_tag = false;
            text.push(' ');
        } else if !in_tag {
            text.push(c);
        }
        i += 1;
    }
    assert(v@.take(v@.len() as int) =~= v@);
    collapse_whitespace(&text)
}

/// The first `n` characters of `s` (all of them when there are fewer).
pub open spec fn first_chars(s: Seq<char>, n: nat) -> Seq<char> {
    if s.len() <= n {
        s
    } else {
        s.take(n as int)
    }
}

/// The first characters of a text are its beginning: as many as asked for (all of them
/// when there are fewer), each the character at the same place of the text.
pub proof fn lemma_first_chars_prefix(s: Seq<char>, n: nat)
    ensures
        first_chars(s, n).len() == if s.len() < n {
            s.len()
        } else {
            n
        },
        forall|k: int| 0 <= k < first_chars(s, n).len() ==> #[trigger] first_chars(s, n)[k] == s[k],
{
}

/// One entry of the offline search index.
pub struct OfflineIndexEntry {
    pub title: String,
    pub path: String,
    pub tags: Vec<String>,
    /// The first 300 characters of the note's plain text.
    pub content: String,
    /// Modification time, in seconds since the Unix epoch.
    pub mtime: i64,
}

/// The entry of a note: its title, path and tags, the first 300 characters of the plain
/// text of its HTML, and its time in seconds.
pub open spec fn offline_entry_ok(e: OfflineIndexEntry, n: Note) -> bool {
    &&& e.title@ == n.title@
    &&& e.path@ == n.path@
    &&& views(e.tags@) == views(n.tags@)
    &&& e.content@ == first_chars(strip_html_spec(n.content_html@), 300)
    &&& e.mtime == mtime_secs(n.mtime)
}

/// The entries of the offline search index, one per note in map order.
pub fn offline_index_entries(notes: &StrKeyMap<Note>) -> (r: Vec<OfflineIndexEntry>)
    ensures
        r@.len() == notes.entries().len(),
        forall|i: int| 0 <= i < r@.len() ==> offline_entry_ok(#[trigger] r@[i], notes.entries()[i].1),
        forall|i: int|
            0 <= i < r@.len() ==> {
                let plain = strip_html_spec(notes.entries()[i].1.content_html@);
                let c = (#[trigger] r@[i]).content@;
                &&& c.len() == if plain.len() < 300 {
                    plain.len()
                } else {
                    300
                }
                &&& forall|k: int| 0 <= k < c.len() ==> c[k] == plain[k]
            },
{
    let mut r: Vec<OfflineIndexEntry> = Vec::new();
    let mut i: usize = 0;
    while i < notes.len()
        invariant
            i <= notes.entries().len(),
            r@.len() == i,
            forall|j: int| 0 <= j < i ==> offline_entry_ok(#[trigger] r@[j], notes.entries()[j].1),
            forall|j: int|
                0 <= j < i ==> {
                    let plain = strip_html_spec(notes.entries()[j].1.content_html@);
                    let c = (#[trigger] r@[j]).content@;
                    &&& c.len() == if plain.len() < 300 {
                        plain.len()
                    } else {
                        300
                    }
                    &&& forall|k: int| 0 <= k < c.len() ==> c[k] == plain[k]
                },
        decreases notes.entries().len() - i,
    {
        let note = notes.value_at(i);
        let plain = strip_html_tags(note.content_html.as_str());
        let pv = str_to_chars(plain.as_str());
        let n = if pv.len() < 300 { pv.len() } else { 300 };
        let content = crate::text::chars_to_string_range(&pv, 0, n);
        proof {
            assert(pv@.subrange(0, n as int) =~= first_chars(plain@, 300));
            lemma_first_chars_prefix(plain@, 300);
        }
        r.push(OfflineIndexEntry {
            title: note.title.clone(),
            path: note.path.clone(),
            tags: clone_strings(&note.tags),
            content,
            mtime: note_mtime_secs(note),
        });
        i += 1;
    }
    r
}

} // verus!
