//! Reading history of the users.
use vstd::prelude::*;
use crate::clock::{max_duration_nanos, now_nanos, rfc3339, rfc3339_text, MAX_DATE_SECS};
use crate::search::{is_permutation, newest_first, order_newest_first};
use crate::text::{decimal, push_decimal, push_str};

verus! {

/// One visit of a note by a user.
pub struct ReadingHistory {
    pub username: String,
    pub note_path: String,
    pub note_title: String,
    /// When the note was visited, in nanoseconds since the epoch.
    pub visited_at: u128,
    /// Reading time, in seconds.
    pub duration: u64,
}

impl ReadingHistory {
    /// A visit at time `now` (nanoseconds since the epoch).
    pub fn new_at(username: String, note_path: String, note_title: String, duration: u64, now: u128) -> (h: Self)
        ensures
            h.username == username,
            h.note_path == note_path,
            h.note_title == note_title,
            h.duration == duration,
            h.visited_at == now,
    {
        ReadingHistory { username, note_path, note_title, visited_at: now, duration }
    }

    /// A visit happening now: `new_at` with the time the system clock reads.
    pub fn new(username: String, note_path: String, note_title: String, duration: u64) -> (h: Self)
        ensures
            h.username == username,
            h.note_path == note_path,
            h.note_title == note_title,
            h.duration == duration,
            h.visited_at <= max_duration_nanos(),
    {
        let now = now_nanos();
        ReadingHistory::new_at(username, note_path, note_title, duration, now)
    }

    /// The database key of the visit: user, time in nanoseconds and path, separated by
    /// `:`, which keeps two visits of one user apart.
    pub fn db_key(&self) -> (k: String)
        ensures
            k@ == self.username@ + seq![':'] + decimal(self.visited_at as nat) + seq![':'] + self.note_path@,
    {
        let mut k = String::new();
        push_str(&mut k, self.username.as_str());
        k.push(':');
        push_decimal(&mut k, self.visited_at);
        k.push(':');
        push_str(&mut k, self.note_path.as_str());
        k
    }
}


/// The fields of a visit.
pub open spec fn history_view(h: ReadingHistory) -> (Seq<char>, Seq<char>, Seq<char>, u128, u64) {
    (h.username@, h.note_path@, h.note_title@, h.visited_at, h.duration)
}

/// The visit times of a list of visits.
pub open spec fn visit_times(list: Seq<ReadingHistory>) -> Seq<int> {
    list.map_values(|h: ReadingHistory| h.visited_at as int)
}

/// `r` holds the first `limit` visits of `list` in the order of a stable sort by visit
/// time, newest first.
pub open spec fn newest_visits(r: Seq<ReadingHistory>, list: Seq<ReadingHistory>, limit: nat) -> bool {
    exists|order: Seq<usize>|
        #![trigger is_permutation(order, list.len())]
        is_permutation(order, list.len()) && newest_first(order, visit_times(list)) && r.len() == (if list.len()
            <= limit {
            list.len()
        } else {
            limit
        }) && forall|k: int| 0 <= k < r.len() ==> history_view(#[trigger] r[k]) == history_view(list[order[k] as int])
}

/// The key range of one user's records: every key from `user:` up to, not including, `user;`.
pub fn user_key_range(username: &str) -> (r: (String, String))
    ensures
        r.0@ == username@ + seq![':'],
        r.1@ == username@ + seq![';'],
{
    let mut lower = username.to_string();
    lower.push(':');
    let mut upper = username.to_string();
    upper.push(';');
    (lower, upper)
}

/// The positions of the records that belong to `username`, in order. A key range scan
/// from `user:` to `user;` also meets the records of users whose names begin with
/// `user:`; this keeps only the user's own.
pub fn records_of_user(usernames: &Vec<String>, username: &str) -> (r: Vec<usize>)
    ensures
        r@.len() <= usernames@.len(),
        forall|k: int| 0 <= k < r@.len() ==> (#[trigger] r@[k]) < usernames@.len() && usernames@[r@[k] as int]@ == username@,
        forall|k: int, m: int| 0 <= k < m < r@.len() ==> #[trigger] r@[k] < #[trigger] r@[m],
        forall|i: int| 0 <= i < usernames@.len() && #[trigger] usernames@[i]@ == username@ ==> r@.contains(i as usize),
{
    let mut r: Vec<usize> = Vec::new();
    let mut i: usize = 0;
    while i < usernames.len()
        invariant
            i <= usernames@.len(),
            r@.len() <= i,
            forall|k: int| 0 <= k < r@.len() ==> (#[trigger] r@[k]) < i && usernames@[r@[k] as int]@ == username@,
            forall|k: int, m: int| 0 <= k < m < r@.len() ==> #[trigger] r@[k] < #[trigger] r@[m],
            forall|j: int| 0 <= j < i && #[trigger] usernames@[j]@ == username@ ==> r@.contains(j as usize),
        decreases usernames@.len() - i,
    {
        let ghost before = r@;
        let own = crate::text::str_eq(usernames[i].as_str(), username);
        if own {
            r.push(i);
            assert(r@[r@.len() - 1] == i);
        }
        assert forall|j: int| 0 <= j < i + 1 && #[trigger] usernames@[j]@ == username@ implies r@.contains(j as usize) by {
            if j < i {
                let k = choose|k: int| 0 <= k < before.len() && before[k] == j as usize;
                assert(r@[k] == j as usize);
            } else {
                assert(r@[r@.len() - 1] == i);
            }
        }
        i += 1;
    }
    r
}

/// A copy of a visit.
fn copy_history(h: &ReadingHistory) -> (r: ReadingHistory)
    ensures
        history_view(r) == history_view(*h),
{
    ReadingHistory {
        username: h.username.clone(),
        note_path: h.note_path.clone(),
        note_title: h.note_title.clone(),
        visited_at: h.visited_at,
        duration: h.duration,
    }
}

/// A user's visits as the history page lists them: newest first, visits of the same
/// time in their stored order, at most `limit` (see `newest_visits`).
pub fn newest_history(list: &Vec<ReadingHistory>, limit: usize) -> (r: Vec<ReadingHistory>)
    ensures
        newest_visits(r@, list@, limit as nat),
{
    let mut keys: Vec<u128> = Vec::new();
    let mut i: usize = 0;
    while i < list.len()
        invariant
            i <= list@.len(),
            keys@.len() == i,
            forall|k: int| 0 <= k < i ==> #[trigger] keys@[k] == list@[k].visited_at,
        decreases list@.len() - i,
    {
        keys.push(list[i].visited_at);
        i += 1;
    }
    let order = order_newest_first(&keys);
    assert(keys@.map_values(|k: u128| k as int) =~= visit_times(list@));
    let n = if list.len() <= limit {
        list.len()
    } else {
        limit
    };
    let mut r: Vec<ReadingHistory> = Vec::new();
    let mut k: usize = 0;
    while k < n
        invariant
            k <= n,
            n <= list@.len(),
            is_permutation(order@, list@.len()),
            r@.len() == k,
            forall|j: int| 0 <= j < k ==> history_view(#[trigger] r@[j]) == history_view(list@[order@[j] as int]),
        decreases n - k,
    {
        let idx = order[k];
        assert(idx < list@.len());
        r.push(copy_history(&list[idx]));
        k += 1;
    }
    assert(is_permutation(order@, list@.len()));
    r
}

/// The keys of the visits beyond the `keep` newest of a list ordered newest first: the
/// records that a clean-up removes.
pub fn stale_history_keys(newest_first_list: &Vec<ReadingHistory>, keep: usize) -> (r: Vec<String>)
    ensures
        r@.len() == (if newest_first_list@.len() <= keep { 0 } else { newest_first_list@.len() - keep }),
        forall|k: int| 0 <= k < r@.len() ==> (#[trigger] r@[k])@ == newest_first_list@[keep + k].username@
            + seq![':'] + decimal(newest_first_list@[keep + k].visited_at as nat) + seq![':']
            + newest_first_list@[keep + k].note_path@,
{
    let mut r: Vec<String> = Vec::new();
    if newest_first_list.len() <= keep {
        return r;
    }
    let mut i = keep;
    while i < newest_first_list.len()
        invariant
            keep <= i <= newest_first_list@.len(),
            r@.len() == i - keep,
            forall|k: int| 0 <= k < r@.len() ==> (#[trigger] r@[k])@ == newest_first_list@[keep + k].username@
                + seq![':'] + decimal(newest_first_list@[keep + k].visited_at as nat) + seq![':']
                + newest_first_list@[keep + k].note_path@,
        decreases newest_first_list@.len() - i,
    {
        r.push(newest_first_list[i].db_key());
        i += 1;
    }
    r
}

// ─── Requests and answers of the reading API ────────────────────────────────

/// The query of the list of a user's reading progress.
pub struct ListProgressQuery {
    pub limit: Option<usize>,
}

impl ListProgressQuery {
    /// The number of entries listed: 20 unless given, at most 100.
    pub fn effective_limit(&self) -> (n: usize)
        ensures
            n == match self.limit {
                Some(l) => if l < 100 { l } else { 100 },
                None => 20,
            },
    {
        match self.limit {
            Some(l) => if l < 100 {
                l
            } else {
                100
            },
            None => 20,
        }
    }
}

/// A request to record a visit.
pub struct AddHistoryRequest {
    pub note_path: String,
    pub note_title: String,
    /// Reading time, in seconds.
    pub duration: u64,
}

/// The query of the list of a user's reading history.
pub struct ListHistoryQuery {
    pub limit: Option<usize>,
}

impl ListHistoryQuery {
    /// The number of entries listed: 50 unless given, at most 200.
    pub fn effective_limit(&self) -> (n: usize)
        ensures
            n == match self.limit {
                Some(l) => if l < 200 { l } else { 200 },
                None => 50,
            },
    {
        match self.limit {
            Some(l) => if l < 200 {
                l
            } else {
                200
            },
            None => 50,
        }
    }
}

/// A visit as the API answers it, the visit time in RFC 3339.
pub struct HistoryResponse {
    pub note_path: String,
    pub note_title: String,
    pub visited_at: String,
    pub duration: u64,
}

impl HistoryResponse {
    /// The answer for one visit.
    pub fn from_history(h: &ReadingHistory) -> (r: Self)
        requires
            h.visited_at / 1_000_000_000 <= MAX_DATE_SECS,
        ensures
            r.note_path@ == h.note_path@,
            r.note_title@ == h.note_title@,
            r.visited_at@ == rfc3339_text(h.visited_at),
            r.duration == h.duration,
    {
        HistoryResponse {
            note_path: h.note_path.clone(),
            note_title: h.note_title.clone(),
            visited_at: rfc3339(h.visited_at),
            duration: h.duration,
        }
    }
}

} // verus!
