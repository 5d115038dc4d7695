//! Insights over the vault: writing activity by month and by day, health of the link
//! graph, and the tag cloud.
use vstd::prelude::*;
use vstd::relations::{sorted_by, total_ordering};
use crate::config::views;
use crate::domain::Note;
use crate::graph::mtime_secs;
use crate::keyed::StrKeyMap;
use crate::order::{lemma_lt_total, lemma_lt_transitive, seq_le, seq_lt, str_lt};
use crate::text::{decimal, push_decimal, push_str, str_to_chars, zero_pad};

verus! {

// ─── Visible characters ──────────────────────────────────────────────────────

/// The number of characters of HTML outside tags (`<` opens a tag, `>` closes it).
pub open spec fn visible_count(s: Seq<char>) -> (nat, bool)
    decreases s.len(),
{
    if s.len() == 0 {
        (0, false)
    } else {
        let (n, in_tag) = visible_count(s.drop_last());
        let c = s.last();
        if c == '<' {
            (n, true)
        } else if c == '>' {
            (n, false)
        } else if !in_tag {
            (n + 1, in_tag)
        } else {
            (n, in_tag)
        }
    }
}

/// The number of characters of an HTML fragment that are not inside a tag.
pub fn count_visible_chars(html: &str) -> (n: usize)
    ensures
        n == visible_count(html@).0,
{
    let v = str_to_chars(html);
    let mut count: usize = 0;
    let mut in_tag = false;
    let mut i: usize = 0;
    assert(v@.take(0) =~= Seq::<char>::empty());
    while i < v.len()
        invariant
            i <= v@.len(),
            v@ == html@,
            count <= i,
            (count as nat, in_tag) == visible_count(v@.take(i as int)),
        decreases v@.len() - i,
    {
        let c = v[i];
        proof {
            assert(v@.take(i + 1).drop_last() =~= v@.take(i as int));
            assert(v@.take(i + 1).last() == c);
        }
        if c == '<' {
            in_tag = true;
        } else if c == '>' {
            in_tag = false;
        } else if !in_tag {
            count += 1;
        }
        i += 1;
    }
    assert(v@.take(v@.len() as int) =~= v@);
    count
}

// ─── Calendar ────────────────────────────────────────────────────────────────

/// The civil date (year, month, day) of the day `days` after 1970-01-01, by the
/// days-from-civil algorithm on the proleptic Gregorian calendar.
pub open spec fn civil_from_days(days: int) -> (int, int, int) {
    let z = days + 719468;
    let era = z / 146097;
    let doe = z - era * 146097;
    let yoe = (doe - doe / 1460 + doe / 36524 - doe / 146096) / 365;
    let y = yoe + era * 400;
    let doy = doe - (365 * yoe + yoe / 4 - yoe / 100);
    let mp = (5 * doy + 2) / 153;
    let d = doy - (153 * mp + 2) / 5 + 1;
    let m = if mp < 10 {
        mp + 3
    } else {
        mp - 9
    };
    (if m <= 2 {
        y + 1
    } else {
        y
    }, m, d)
}

/// The date of day `days` as the integer types it is returned in.
pub open spec fn ymd_spec(days: int) -> (i32, u32, u32) {
    let (y, m, d) = civil_from_days(days);
    (y as i32, m as u32, d as u32)
}

/// The 400-year era of day `z` of the shifted calendar (floor division by 146097).
fn era_of(z: i64) -> (e: i64)
    requires
        z >= i64::MIN + 146096,
    ensures
        e == z as int / 146097,
        0 <= z - e * 146097 < 146097,
{
    if z >= 0 {
        z / 146097
    } else {
        let e = (z - 146096) / 146097;
        assert(e == z as int / 146097) by (nonlinear_arith)
            requires
                z < 0,
                e == -((146096 - z) / 146097),
        ;
        e
    }
}

/// The civil date of the day `days` after 1970-01-01, as (year, month, day).
#[verifier::rlimit(40)]
pub fn days_to_ymd(days: i64) -> (r: (i32, u32, u32))
    requires
        days <= i64::MAX - 719468,
    ensures
        r == ymd_spec(days as int),
{
    let z: i64 = days + 719468;
    let era: i64 = era_of(z);
    let doe: i64 = z - era * 146097;
    let yoe: i64 = (doe - doe / 1460 + doe / 36524 - doe / 146096) / 365;
    assert(0 <= yoe <= 400);
    let y: i64 = yoe + era * 400;
    let doy: i64 = doe - (365 * yoe + yoe / 4 - yoe / 100);
    let mp: i64 = (5 * doy + 2) / 153;
    let d: i64 = doy - (153 * mp + 2) / 5 + 1;
    let m: i64 = if mp < 10 {
        mp + 3
    } else {
        mp - 9
    };
    let y2: i64 = if m <= 2 {
        y + 1
    } else {
        y
    };
    (#[verifier::truncate] (y2 as i32), #[verifier::truncate] (m as u32), #[verifier::truncate] (d as u32))
}

/// An integer formatted with `{:0w}`: zero-padded to `w` characters, the sign counting
/// toward the width.
pub open spec fn pad_signed(n: int, w: nat) -> Seq<char> {
    if n >= 0 {
        zero_pad(decimal(n as nat), w)
    } else {
        seq!['-'] + zero_pad(decimal((-n) as nat), (w - 1) as nat)
    }
}

/// `YYYY-MM-DD`.
pub open spec fn date_string(y: i32, m: u32, d: u32) -> Seq<char> {
    pad_signed(y as int, 4) + seq!['-'] + zero_pad(decimal(m as nat), 2) + seq!['-'] + zero_pad(decimal(d as nat), 2)
}

/// Appends `n` formatted with `{:0w}` for `w >= 1`.
fn push_pad_signed(s: &mut String, n: i32, w: usize)
    requires
        w >= 1,
    ensures
        final(s)@ == old(s)@ + pad_signed(n as int, w as nat),
{
    let ghost start = s@;
    if n >= 0 {
        crate::text::push_padded(s, n as u128, w);
    } else {
        s.push('-');
        let m: u128 = (0i64 - (n as i64)) as u128;
        crate::text::push_padded(s, m, w - 1);
        assert(s@ =~= start + pad_signed(n as int, w as nat));
    }
}

/// The date of a modification time (nanoseconds since the epoch): `None` unless it is
/// after the epoch by at least one second.
pub open spec fn note_date(nanos: u128) -> Option<Seq<char>> {
    let secs = mtime_secs(nanos);
    if secs <= 0 {
        None
    } else {
        let (y, m, d) = ymd_spec(secs / 86400);
        Some(date_string(y, m, d))
    }
}

/// The month (`YYYY-MM`, the first seven characters of the date) of a modification time.
pub open spec fn note_month(nanos: u128) -> Option<Seq<char>> {
    match note_date(nanos) {
        Some(s) => Some(s.take(7)),
        None => None,
    }
}

/// The `YYYY-MM-DD` date of a modification time (see `note_date`).
pub fn mtime_to_date(mtime: u128) -> (r: Option<String>)
    ensures
        match note_date(mtime) {
            Some(s) => r matches Some(t) && t@ == s,
            None => r is None,
        },
{
    let secs: i64 = #[verifier::truncate] ((mtime / 1_000_000_000) as i64);
    if secs <= 0 {
        return None;
    }
    let days = secs / 86400;
    let (y, m, d) = days_to_ymd(days);
    let mut s = String::new();
    push_pad_signed(&mut s, y, 4);
    s.push('-');
    crate::text::push_padded(&mut s, m as u128, 2);
    s.push('-');
    crate::text::push_padded(&mut s, d as u128, 2);
    assert(s@ =~= date_string(y, m, d));
    Some(s)
}

/// The `YYYY-MM` month of a modification time (see `note_month`).
pub fn mtime_to_month(mtime: u128) -> (r: Option<String>)
    ensures
        match note_month(mtime) {
            Some(s) => r matches Some(t) && t@ == s,
            None => r is None,
        },
{
    match mtime_to_date(mtime) {
        Some(date) => {
            let v = str_to_chars(date.as_str());
            proof {
                assert(v@.len() >= 7) by {
                    let secs = mtime_secs(mtime);
                    let (y, m, d) = ymd_spec(secs / 86400);
                    assert(pad_signed(y as int, 4).len() >= 1);
                    assert(zero_pad(decimal(m as nat), 2).len() >= 2);
                    assert(zero_pad(decimal(d as nat), 2).len() >= 2);
                }
            }
            let t = crate::text::chars_to_string_range(&v, 0, 7);
            assert(v@.subrange(0, 7) =~= v@.take(7));
            Some(t)
        },
        None => None,
    }
}

/// One bar of the monthly chart.
pub struct MonthlyCount {
    /// `YYYY-MM`.
    pub year_month: String,
    pub count: usize,
}

/// One cell of the daily chart.
pub struct DailyCount {
    /// `YYYY-MM-DD`.
    pub date: String,
    pub count: usize,
}

/// The month `i` months before (`ty`, `tm`), as (year, month).
pub open spec fn month_back(ty: i32, tm: int, i: int) -> (int, int) {
    let mm = tm - i;
    if mm <= -12 {
        (ty - 2, mm + 24)
    } else if mm <= 0 {
        (ty - 1, mm + 12)
    } else {
        (ty as int, mm)
    }
}

/// The number of notes among `ns` whose month (or date) is `key`.
pub open spec fn count_keyed(ns: Seq<Note>, key: Seq<char>, by_day: bool) -> nat
    decreases ns.len(),
{
    if ns.len() == 0 {
        0
    } else {
        count_keyed(ns.drop_last(), key, by_day) + (if (if by_day {
            note_date(ns.last().mtime)
        } else {
            note_month(ns.last().mtime)
        }) == Some(key) {
            1nat
        } else {
            0nat
        })
    }
}

/// The current year and month are far enough from the lower end of `i32` for the chart
/// to step 23 months back.
pub open spec fn months_window_ok(today_secs: i64) -> bool {
    let (ty, tm, _) = ymd_spec(today_secs / 86400);
    ty as int >= i32::MIN as int + (if tm == 12 {
        1int
    } else {
        2int
    })
}

/// The notes of a note map, in entry order.
pub open spec fn map_notes(m: StrKeyMap<Note>) -> Seq<Note> {
    m.entries().map_values(|e: (String, Note)| e.1)
}

/// Counts the notes whose month or date, given per note in `keys`, is `key`.
fn count_key(keys: &Vec<Option<String>>, key: &String, Ghost(ns): Ghost<Seq<Note>>, by_day: bool) -> (n: usize)
    requires
        keys@.len() == ns.len(),
        forall|j: int|
            0 <= j < ns.len() ==> match (if by_day {
                note_date(ns[j].mtime)
            } else {
                note_month(ns[j].mtime)
            }) {
                Some(s) => #[trigger] keys@[j] matches Some(t) && t@ == s,
                None => keys@[j] is None,
            },
    ensures
        n == count_keyed(ns, key@, by_day),
{
    let mut n: usize = 0;
    let mut i: usize = 0;
    assert(ns.take(0) =~= Seq::<Note>::empty());
    while i < keys.len()
        invariant
            i <= keys@.len(),
            keys@.len() == ns.len(),
            n <= i,
            n == count_keyed(ns.take(i as int), key@, by_day),
            forall|j: int|
                0 <= j < ns.len() ==> match (if by_day {
                    note_date(ns[j].mtime)
                } else {
                    note_month(ns[j].mtime)
                }) {
                    Some(s) => #[trigger] keys@[j] matches Some(t) && t@ == s,
                    None => keys@[j] is None,
                },
        decreases keys@.len() - i,
    {
        proof {
            assert(ns.take(i + 1).drop_last() =~= ns.take(i as int));
            assert(ns.take(i + 1).last() == ns[i as int]);
        }
        match &keys[i] {
            Some(t) => {
                if crate::text::str_eq(t.as_str(), key.as_str()) {
                    n += 1;
                }
            },
            None => {},
        }
        i += 1;
    }
    assert(ns.take(ns.len() as int) =~= ns);
    n
}

/// The writing activity on the day `today_secs` (seconds since the epoch): for each of
/// the last 24 months, oldest first, the month as `YYYY-MM` and the number of notes
/// modified in it; for each of the last 30 days, oldest first, the date and the number
/// of notes modified on it.
pub open spec fn time_series(notes: StrKeyMap<Note>, today_secs: i64, months: Seq<MonthlyCount>, days: Seq<DailyCount>) -> bool {
    let ns = map_notes(notes);
    let today = today_secs / 86400;
    let (ty, tm, _) = ymd_spec(today);
    &&& months.len() == 24
    &&& forall|k: int|
        0 <= k < 24 ==> {
            let (y, m) = month_back(ty, tm as int, 23 - k);
            &&& (#[trigger] months[k]).year_month@ == pad_signed(y, 4) + seq!['-'] + zero_pad(decimal(m as nat), 2)
            &&& months[k].count == count_keyed(ns, months[k].year_month@, false)
        }
    &&& days.len() == 30
    &&& forall|k: int|
        0 <= k < 30 ==> {
            let (y, m, d) = ymd_spec(today - (29 - k));
            &&& (#[trigger] days[k]).date@ == date_string(y, m, d)
            &&& days[k].count == count_keyed(ns, days[k].date@, true)
        }
}

/// The notes per month over the 24 months up to the current one, and per day over the 30
/// days up to today, both oldest first; `today_secs` is the current time in seconds since
/// the epoch.
pub fn build_time_series(notes: &StrKeyMap<Note>, today_secs: i64) -> (r: (Vec<MonthlyCount>, Vec<DailyCount>))
    requires
        today_secs >= 0,
        months_window_ok(today_secs),
    ensures
        time_series(*notes, today_secs, r.0@, r.1@),
{
    let ghost ns = map_notes(*notes);
    let mut months: Vec<Option<String>> = Vec::new();
    let mut dates: Vec<Option<String>> = Vec::new();
    let mut i: usize = 0;
    while i < notes.len()
        invariant
            i <= notes.entries().len(),
            ns == map_notes(*notes),
            months@.len() == i,
            dates@.len() == i,
            forall|j: int|
                0 <= j < i ==> match note_month(ns[j].mtime) {
                    Some(s) => #[trigger] months@[j] matches Some(t) && t@ == s,
                    None => months@[j] is None,
                },
            forall|j: int|
                0 <= j < i ==> match note_date(ns[j].mtime) {
                    Some(s) => #[trigger] dates@[j] matches Some(t) && t@ == s,
                    None => dates@[j] is None,
                },
        decreases notes.entries().len() - i,
    {
        let note = notes.value_at(i);
        months.push(mtime_to_month(note.mtime));
        dates.push(mtime_to_date(note.mtime));
        i += 1;
    }
    let today: i64 = today_secs / 86400;
    let (ty, tm, _) = days_to_ymd(today);
    let mut monthly: Vec<MonthlyCount> = Vec::new();
    let mut k: i32 = 0;
    while k < 24
        invariant
            0 <= k <= 24,
            monthly@.len() == k,
            months@.len() == ns.len(),
            (ty, tm) == (ymd_spec(today as int).0, ymd_spec(today as int).1),
            1 <= tm <= 12,
            ty as int >= i32::MIN as int + (if tm == 12 { 1int } else { 2int }),
            forall|j: int|
                0 <= j < ns.len() ==> match note_month(ns[j].mtime) {
                    Some(s) => #[trigger] months@[j] matches Some(t) && t@ == s,
                    None => months@[j] is None,
                },
            forall|q: int|
                0 <= q < k ==> {
                    let (y, m) = month_back(ty, tm as int, 23 - q);
                    &&& (#[trigger] monthly@[q]).year_month@ == pad_signed(y, 4) + seq!['-'] + zero_pad(decimal(m as nat), 2)
                    &&& monthly@[q].count == count_keyed(ns, monthly@[q].year_month@, false)
                },
        decreases 24 - k,
    {
        let back: i32 = 23 - k;
        let mut month: i32 = tm as i32 - back;
        let mut year: i32 = ty;
        if month <= -12 {
            month = month + 24;
            year = year - 2;
        } else if month <= 0 {
            month = month + 12;
            year = year - 1;
        }
        let mut key = String::new();
        push_pad_signed(&mut key, year, 4);
        key.push('-');
        crate::text::push_padded(&mut key, month as u128, 2);
        let count = count_key(&months, &key, Ghost(ns), false);
        monthly.push(MonthlyCount { year_month: key, count });
        k += 1;
    }
    let mut daily: Vec<DailyCount> = Vec::new();
    let mut k: i64 = 0;
    while k < 30
        invariant
            0 <= k <= 30,
            daily@.len() == k,
            dates@.len() == ns.len(),
            today == today_secs / 86400,
            today_secs >= 0,
            forall|j: int|
                0 <= j < ns.len() ==> match note_date(ns[j].mtime) {
                    Some(s) => #[trigger] dates@[j] matches Some(t) && t@ == s,
                    None => dates@[j] is None,
                },
            forall|q: int|
                0 <= q < k ==> {
                    let (y, m, d) = ymd_spec(today - (29 - q));
                    &&& (#[trigger] daily@[q]).date@ == date_string(y, m, d)
                    &&& daily@[q].count == count_keyed(ns, daily@[q].date@, true)
                },
        decreases 30 - k,
    {
        let (y, m, d) = days_to_ymd(today - (29 - k));
        let mut key = String::new();
        push_pad_signed(&mut key, y, 4);
        key.push('-');
        crate::text::push_padded(&mut key, m as u128, 2);
        key.push('-');
        crate::text::push_padded(&mut key, d as u128, 2);
        assert(key@ =~= date_string(y, m, d));
        let count = count_key(&dates, &key, Ghost(ns), true);
        daily.push(DailyCount { date: key, count });
        k += 1;
    }
    (monthly, daily)
}

// ─── Tag cloud ───────────────────────────────────────────────────────────────

/// One tag of the cloud with the number of notes that carry it.
pub struct TagCloudEntry {
    pub tag: String,
    pub count: usize,
}

/// The cloud order: more notes first, then tags in ascending order.
pub open spec fn cloud_le() -> spec_fn((Seq<char>, nat), (Seq<char>, nat)) -> bool {
    |a: (Seq<char>, nat), b: (Seq<char>, nat)| a.1 > b.1 || (a.1 == b.1 && seq_le(a.0, b.0))
}

/// The cloud order is a total order.
pub proof fn lemma_cloud_le_total()
    ensures
        total_ordering(cloud_le()),
{
    let r = cloud_le();
    assert forall|x: (Seq<char>, nat)| #[trigger] r(x, x) by {}
    assert forall|x: (Seq<char>, nat), y: (Seq<char>, nat)| #[trigger] r(x, y) && #[trigger] r(y, x) implies x == y by {
        lemma_lt_total(x.0, y.0);
    }
    assert forall|x: (Seq<char>, nat), y: (Seq<char>, nat), z: (Seq<char>, nat)| #[trigger] r(x, y) && #[trigger] r(y, z) implies r(x, z) by {
        if x.1 == y.1 && y.1 == z.1 && x.0 != y.0 && y.0 != z.0 {
            lemma_lt_transitive(x.0, y.0, z.0);
        }
    }
    assert forall|x: (Seq<char>, nat), y: (Seq<char>, nat)| #[trigger] r(x, y) || #[trigger] r(y, x) by {
        lemma_lt_total(x.0, y.0);
    }
}

/// The (tag, number of notes) pairs of a tag index, in entry order.
pub open spec fn cloud_pairs(tag_index: StrKeyMap<Vec<String>>) -> Seq<(Seq<char>, nat)> {
    tag_index.entries().map_values(|e: (String, Vec<String>)| (e.0@, e.1@.len()))
}

/// A cloud taken as (tag, count) pairs.
pub open spec fn cloud_view(v: Seq<TagCloudEntry>) -> Seq<(Seq<char>, nat)> {
    v.map_values(|e: TagCloudEntry| (e.tag@, e.count as nat))
}

/// The first `n` elements of `s` (all of them when there are fewer).
pub open spec fn first_n<A>(s: Seq<A>, n: nat) -> Seq<A> {
    if s.len() <= n {
        s
    } else {
        s.take(n as int)
    }
}

/// Whether entry `a` comes strictly before entry `b` in the cloud order.
fn cloud_before(a: &TagCloudEntry, b: &TagCloudEntry) -> (r: bool)
    ensures
        r == (a.count > b.count || (a.count == b.count && seq_lt(a.tag@, b.tag@))),
{
    a.count > b.count || (a.count == b.count && str_lt(a.tag.as_str(), b.tag.as_str()))
}

/// The tag cloud: the tags of the index with their numbers of notes, most frequent
/// first and then in ascending order of tag, at most 200 of them.
pub fn build_tag_cloud(tag_index: &StrKeyMap<Vec<String>>) -> (r: Vec<TagCloudEntry>)
    ensures
        cloud_view(r@) == first_n(cloud_pairs(*tag_index).sort_by(cloud_le()), 200),
{
    let ghost all = cloud_pairs(*tag_index);
    let mut out: Vec<TagCloudEntry> = Vec::new();
    let mut i: usize = 0;
    proof {
        lemma_cloud_le_total();
        assert(cloud_view(out@) =~= all.take(0));
    }
    while i < tag_index.len()
        invariant
            i <= tag_index.entries().len(),
            all == cloud_pairs(*tag_index),
            total_ordering(cloud_le()),
            sorted_by(cloud_view(out@), cloud_le()),
            cloud_view(out@).to_multiset() == all.take(i as int).to_multiset(),
        decreases tag_index.entries().len() - i,
    {
        let x = TagCloudEntry { tag: tag_index.key_at(i).clone(), count: tag_index.value_at(i).len() };
        let ghost xv = (x.tag@, x.count as nat);
        assert(xv == all[i as int]);
        let mut p: usize = 0;
        while p < out.len() && !cloud_before(&x, &out[p])
            invariant
                p <= out@.len(),
                xv == (x.tag@, x.count as nat),
                forall|j: int| 0 <= j < p ==> cloud_le()(#[trigger] cloud_view(out@)[j], xv),
            decreases out@.len() - p,
        {
            proof {
                lemma_lt_total(out@[p as int].tag@, x.tag@);
                assert(cloud_view(out@)[p as int] == (out@[p as int].tag@, out@[p as int].count as nat));
            }
            p += 1;
        }
        let ghost before = cloud_view(out@);
        out.insert(p, x);
        proof {
            let vo = cloud_view(out@);
            let vb = before;
            let r = cloud_le();
            assert(vo =~= vb.insert(p as int, xv));
            if p < vb.len() {
                assert(r(xv, vb[p as int]));
            }
            assert forall|a: int, b: int| 0 <= a < b < vo.len() implies #[trigger] r(vo[a], vo[b]) by {
                if a < p && b > p {
                    assert(r(vb[a], xv));
                    if b - 1 > p {
                        assert(r(vb[p as int], vb[b - 1]));
                    }
                    assert(r(xv, vb[b - 1]));
                } else if a == p && b > p {
                    if b - 1 > p {
                        assert(r(vb[p as int], vb[b - 1]));
                    }
                } else if a < p && b == p {
                } else if b < p {
                    assert(r(vb[a], vb[b]));
                } else {
                    assert(r(vb[a - 1], vb[b - 1]));
                }
            }
            vstd::seq_lib::to_multiset_insert(vb, p as int, xv);
            assert(all.take(i + 1) =~= all.take(i as int).push(xv));
            vstd::seq_lib::to_multiset_build(all.take(i as int), xv);
        }
        i += 1;
    }
    proof {
        assert(all.take(all.len() as int) =~= all);
        all.lemma_sort_by_ensures(cloud_le());
        vstd::seq_lib::lemma_sorted_unique(cloud_view(out@), all.sort_by(cloud_le()), cloud_le());
    }
    if out.len() > 200 {
        out.truncate(200);
        proof {
            assert(cloud_view(out@) =~= all.sort_by(cloud_le()).take(200));
        }
    }
    out
}

// ─── Health of the vault ─────────────────────────────────────────────────────

/// A note, by title and path.
pub struct NoteRef {
    pub title: String,
    pub path: String,
}

/// A link whose target is no note.
pub struct BrokenLink {
    pub from_title: String,
    pub from_path: String,
    pub broken_target: String,
}

/// A link target exists: the title index knows it, or a note has it (or it with `.md`)
/// as its path.
pub open spec fn link_exists(nm: Map<Seq<char>, Note>, li: Map<Seq<char>, String>, t: Seq<char>) -> bool {
    li.contains_key(t) || nm.contains_key(t) || nm.contains_key(t + ".md"@)
}

/// The broken links among `links` of a note, as (title, path, target).
pub open spec fn broken_in(
    nm: Map<Seq<char>, Note>,
    li: Map<Seq<char>, String>,
    n: Note,
    links: Seq<Seq<char>>,
) -> Seq<(Seq<char>, Seq<char>, Seq<char>)>
    decreases links.len(),
{
    if links.len() == 0 {
        Seq::empty()
    } else {
        broken_in(nm, li, n, links.drop_last()) + if link_exists(nm, li, links.last()) {
            Seq::empty()
        } else {
            seq![(n.title@, n.path@, links.last())]
        }
    }
}

/// The broken links of all notes `ns`, note by note.
pub open spec fn broken_all(nm: Map<Seq<char>, Note>, li: Map<Seq<char>, String>, ns: Seq<Note>) -> Seq<
    (Seq<char>, Seq<char>, Seq<char>),
>
    decreases ns.len(),
{
    if ns.len() == 0 {
        Seq::empty()
    } else {
        broken_all(nm, li, ns.drop_last()) + broken_in(nm, li, ns.last(), views(ns.last().outgoing_links@))
    }
}

/// The number of links of the notes `ns`.
pub open spec fn total_links(ns: Seq<Note>) -> nat
    decreases ns.len(),
{
    if ns.len() == 0 {
        0
    } else {
        total_links(ns.drop_last()) + ns.last().outgoing_links@.len()
    }
}

/// A link `t` reaches the note at path `p`: the title index takes `t` to `p`, or `t` is
/// the path itself, or the path without its `.md` extension.
pub open spec fn links_to(li: Map<Seq<char>, String>, t: Seq<char>, p: Seq<char>) -> bool {
    (li.contains_key(t) && li[t]@ == p) || t == p || t + ".md"@ == p
}

/// Some link of some note among `ns` reaches the path `p`.
pub open spec fn has_inlink(li: Map<Seq<char>, String>, ns: Seq<Note>, p: Seq<char>) -> bool {
    exists|i: int, j: int|
        0 <= i < ns.len() && 0 <= j < ns[i].outgoing_links@.len() && #[trigger] links_to(
            li,
            ns[i].outgoing_links@[j]@,
            p,
        )
}

/// The paths that one link can reach: the path the title index gives it, the link
/// itself, and the link with `.md` appended.
pub open spec fn link_targets(li: Map<Seq<char>, String>, t: Seq<char>) -> Seq<Seq<char>> {
    (if li.contains_key(t) {
        seq![li[t]@]
    } else {
        Seq::empty()
    }) + seq![t, t + ".md"@]
}

/// The paths that the links among `links` can reach, link by link.
pub open spec fn targets_in(li: Map<Seq<char>, String>, links: Seq<Seq<char>>) -> Seq<Seq<char>>
    decreases links.len(),
{
    if links.len() == 0 {
        Seq::empty()
    } else {
        targets_in(li, links.drop_last()) + link_targets(li, links.last())
    }
}

/// The paths that some link of the notes `ns` can reach.
pub open spec fn inlink_targets(li: Map<Seq<char>, String>, ns: Seq<Note>) -> Seq<Seq<char>>
    decreases ns.len(),
{
    if ns.len() == 0 {
        Seq::empty()
    } else {
        inlink_targets(li, ns.drop_last()) + targets_in(li, views(ns.last().outgoing_links@))
    }
}

/// A path is among the targets of `links` exactly when one of them reaches it.
proof fn lemma_targets_in(li: Map<Seq<char>, String>, links: Seq<Seq<char>>, p: Seq<char>)
    ensures
        targets_in(li, links).contains(p) <==> exists|j: int| 0 <= j < links.len() && #[trigger] links_to(li, links[j], p),
    decreases links.len(),
{
    if links.len() > 0 {
        let prev = links.drop_last();
        let t = links.last();
        lemma_targets_in(li, prev, p);
        let lt = link_targets(li, t);
        assert(lt.contains(p) <==> links_to(li, t, p)) by {
            if li.contains_key(t) {
                assert(lt =~= seq![li[t]@, t, t + ".md"@]);
                if links_to(li, t, p) {
                    if li[t]@ == p {
                        assert(lt[0] == p);
                    } else if t == p {
                        assert(lt[1] == p);
                    } else {
                        assert(lt[2] == p);
                    }
                }
            } else {
                assert(lt =~= seq![t, t + ".md"@]);
                if links_to(li, t, p) {
                    if t == p {
                        assert(lt[0] == p);
                    } else {
                        assert(lt[1] == p);
                    }
                }
            }
        }
        let whole = targets_in(li, links);
        assert(whole == targets_in(li, prev) + lt);
        if whole.contains(p) {
            let k = choose|k: int| 0 <= k < whole.len() && whole[k] == p;
            if k < targets_in(li, prev).len() {
                assert(targets_in(li, prev)[k] == p);
                let j = choose|j: int| 0 <= j < prev.len() && #[trigger] links_to(li, prev[j], p);
                assert(links[j] == prev[j]);
            } else {
                assert(lt[k - targets_in(li, prev).len()] == p);
                assert(links_to(li, links[links.len() - 1], p));
            }
        }
        if exists|j: int| 0 <= j < links.len() && #[trigger] links_to(li, links[j], p) {
            let j = choose|j: int| 0 <= j < links.len() && #[trigger] links_to(li, links[j], p);
            if j < prev.len() {
                assert(prev[j] == links[j]);
                assert(links_to(li, prev[j], p));
                let k = choose|k: int| 0 <= k < targets_in(li, prev).len() && targets_in(li, prev)[k] == p;
                assert(whole[k] == p);
            } else {
                assert(lt.contains(p));
                let k = choose|k: int| 0 <= k < lt.len() && lt[k] == p;
                assert(whole[targets_in(li, prev).len() + k] == p);
            }
        }
    }
}

/// A path is among the in-link targets of `ns` exactly when some link of some note
/// reaches it.
proof fn lemma_inlink_targets(li: Map<Seq<char>, String>, ns: Seq<Note>, p: Seq<char>)
    ensures
        inlink_targets(li, ns).contains(p) <==> has_inlink(li, ns, p),
    decreases ns.len(),
{
    if ns.len() > 0 {
        let prev = ns.drop_last();
        let n = ns.last();
        let lv = views(n.outgoing_links@);
        lemma_inlink_targets(li, prev, p);
        lemma_targets_in(li, lv, p);
        let a = inlink_targets(li, prev);
        let b = targets_in(li, lv);
        let whole = inlink_targets(li, ns);
        assert(whole == a + b);
        if whole.contains(p) {
            let k = choose|k: int| 0 <= k < whole.len() && whole[k] == p;
            if k < a.len() {
                assert(a[k] == p);
                let (i, j) = choose|i: int, j: int|
                    0 <= i < prev.len() && 0 <= j < prev[i].outgoing_links@.len() && #[trigger] links_to(
                        li,
                        prev[i].outgoing_links@[j]@,
                        p,
                    );
                assert(ns[i] == prev[i]);
                assert(links_to(li, ns[i].outgoing_links@[j]@, p));
            } else {
                assert(b[k - a.len()] == p);
                let j = choose|j: int| 0 <= j < lv.len() && #[trigger] links_to(li, lv[j], p);
                assert(lv[j] == ns[ns.len() - 1].outgoing_links@[j]@);
                assert(links_to(li, ns[ns.len() - 1].outgoing_links@[j]@, p));
            }
        }
        if has_inlink(li, ns, p) {
            let (i, j) = choose|i: int, j: int|
                0 <= i < ns.len() && 0 <= j < ns[i].outgoing_links@.len() && #[trigger] links_to(
                    li,
                    ns[i].outgoing_links@[j]@,
                    p,
                );
            if i < prev.len() {
                assert(prev[i] == ns[i]);
                assert(links_to(li, prev[i].outgoing_links@[j]@, p));
                assert(a.contains(p));
                let k = choose|k: int| 0 <= k < a.len() && a[k] == p;
                assert(whole[k] == p);
            } else {
                assert(lv[j] == ns[i].outgoing_links@[j]@);
                assert(links_to(li, lv[j], p));
                assert(b.contains(p));
                let k = choose|k: int| 0 <= k < b.len() && b[k] == p;
                assert(whole[a.len() + k] == p);
            }
        }
    }
}

/// The notes of `ns` (as title and path) that satisfy `keep`, in order.
pub open spec fn note_refs(ns: Seq<Note>, keep: spec_fn(Note) -> bool) -> Seq<(Seq<char>, Seq<char>)>
    decreases ns.len(),
{
    if ns.len() == 0 {
        Seq::empty()
    } else {
        note_refs(ns.drop_last(), keep) + if keep(ns.last()) {
            seq![(ns.last().title@, ns.last().path@)]
        } else {
            Seq::empty()
        }
    }
}

/// An orphan among `ns`: a note without links that no link of a note of `ns` reaches.
pub open spec fn is_orphan(li: Map<Seq<char>, String>, ns: Seq<Note>) -> spec_fn(Note) -> bool {
    |n: Note| n.outgoing_links@.len() == 0 && !has_inlink(li, ns, n.path@)
}

/// A large note: no table of contents and more than 5000 visible characters.
pub open spec fn is_large() -> spec_fn(Note) -> bool {
    |n: Note| n.toc@.len() == 0 && visible_count(n.content_html@).0 > 5000
}

/// The number of notes of `ns` without tags.
pub open spec fn untagged(ns: Seq<Note>) -> nat
    decreases ns.len(),
{
    if ns.len() == 0 {
        0
    } else {
        untagged(ns.drop_last()) + if ns.last().tags@.len() == 0 {
            1nat
        } else {
            0nat
        }
    }
}

/// Note references taken as (title, path).
pub open spec fn refs_view(v: Seq<NoteRef>) -> Seq<(Seq<char>, Seq<char>)> {
    v.map_values(|r: NoteRef| (r.title@, r.path@))
}

/// Broken links taken as (title, path, target).
pub open spec fn broken_view(v: Seq<BrokenLink>) -> Seq<(Seq<char>, Seq<char>, Seq<char>)> {
    v.map_values(|b: BrokenLink| (b.from_title@, b.from_path@, b.broken_target@))
}

/// The insights of a vault.
pub struct InsightsCache {
    /// When they were computed, in seconds since the epoch.
    pub computed_at: i64,
    pub total_notes: usize,
    pub total_tags: usize,
    pub total_links: usize,
    pub orphan_notes: Vec<NoteRef>,
    pub broken_links: Vec<BrokenLink>,
    pub large_notes: Vec<NoteRef>,
    pub untagged_count: usize,
    pub tag_cloud: Vec<TagCloudEntry>,
    pub monthly_counts: Vec<MonthlyCount>,
    pub daily_counts: Vec<DailyCount>,
}

/// Appends the broken links of one note and the paths its links resolve to.
fn scan_note_links(
    notes: &StrKeyMap<Note>,
    li: &StrKeyMap<String>,
    n: &Note,
    broken: &mut Vec<BrokenLink>,
    targets: &mut Vec<String>,
)
    ensures
        broken_view(final(broken)@) == broken_view(old(broken)@) + broken_in(notes@, li@, *n, views(n.outgoing_links@)),
        views(final(targets)@) == views(old(targets)@) + targets_in(li@, views(n.outgoing_links@)),
{
    let ghost b0 = broken_view(broken@);
    let ghost t0 = views(targets@);
    let ghost lv = views(n.outgoing_links@);
    let mut j: usize = 0;
    assert(lv.take(0) =~= Seq::<Seq<char>>::empty());
    assert(b0 + Seq::<(Seq<char>, Seq<char>, Seq<char>)>::empty() =~= b0);
    assert(t0 + Seq::<Seq<char>>::empty() =~= t0);
    while j < n.outgoing_links.len()
        invariant
            j <= n.outgoing_links@.len(),
            lv == views(n.outgoing_links@),
            broken_view(broken@) == b0 + broken_in(notes@, li@, *n, lv.take(j as int)),
            views(targets@) == t0 + targets_in(li@, lv.take(j as int)),
        decreases n.outgoing_links@.len() - j,
    {
        let t = &n.outgoing_links[j];
        proof {
            assert(lv.take(j + 1).drop_last() =~= lv.take(j as int));
            assert(lv.take(j + 1).last() == t@);
        }
        let ghost bb = broken_view(broken@);
        let ghost tb = views(targets@);
        let mut with_md = t.clone();
        push_str(&mut with_md, ".md");
        let exists = li.contains_key(t.as_str()) || notes.contains_key(t.as_str()) || notes.contains_key(
            with_md.as_str(),
        );
        if !exists {
            broken.push(BrokenLink { from_title: n.title.clone(), from_path: n.path.clone(), broken_target: t.clone() });
            assert(broken_view(broken@) =~= bb.push((n.title@, n.path@, t@)));
        } else {
            assert(broken_view(broken@) =~= bb + Seq::<(Seq<char>, Seq<char>, Seq<char>)>::empty());
        }
        match li.get(t.as_str()) {
            Some(p) => {
                targets.push(p.clone());
            },
            None => {},
        }
        targets.push(t.clone());
        targets.push(with_md);
        assert(views(targets@) =~= tb + link_targets(li@, t@));
        j += 1;
    }
    assert(lv.take(lv.len() as int) =~= lv);
}

/// Computes the insights of a vault at time `now_secs` (seconds since the epoch): note,
/// tag and link totals, orphan notes (no links, and no link of any note reaches them
/// through the title index, by their path, or by their path without `.md`), broken
/// links (targets that no note has), large notes (no table of contents, more than 5000
/// visible characters), the number of untagged notes, the tag cloud, and the monthly and
/// daily activity (see `build_time_series`).
pub fn compute_insights(
    notes: &StrKeyMap<Note>,
    link_index: &StrKeyMap<String>,
    tag_index: &StrKeyMap<Vec<String>>,
    now_secs: i64,
) -> (c: InsightsCache)
    requires
        now_secs >= 0,
        months_window_ok(now_secs),
        total_links(map_notes(*notes)) <= usize::MAX,
    ensures
        insights_of(*notes, link_index@, *tag_index, now_secs, c),
{
    let ghost ns = map_notes(*notes);
    let mut broken: Vec<BrokenLink> = Vec::new();
    let mut targets: Vec<String> = Vec::new();
    let mut links: usize = 0;
    let mut i: usize = 0;
    assert(ns.take(0) =~= Seq::<Note>::empty());
    assert(broken_view(broken@) =~= Seq::<(Seq<char>, Seq<char>, Seq<char>)>::empty());
    assert(views(targets@) =~= Seq::<Seq<char>>::empty());
    while i < notes.len()
        invariant
            i <= notes.entries().len(),
            ns == map_notes(*notes),
            total_links(ns) <= usize::MAX,
            links == total_links(ns.take(i as int)),
            broken_view(broken@) == broken_all(notes@, link_index@, ns.take(i as int)),
            views(targets@) == inlink_targets(link_index@, ns.take(i as int)),
        decreases notes.entries().len() - i,
    {
        let n = notes.value_at(i);
        proof {
            assert(ns.take(i + 1).drop_last() =~= ns.take(i as int));
            assert(ns.take(i + 1).last() == *n);
            lemma_total_links_prefix(ns, i + 1);
        }
        scan_note_links(notes, link_index, n, &mut broken, &mut targets);
        links = links + n.outgoing_links.len();
        i += 1;
    }
    assert(ns.take(ns.len() as int) =~= ns);
    let ghost tg = views(targets@);
    let mut orphans: Vec<NoteRef> = Vec::new();
    let mut large: Vec<NoteRef> = Vec::new();
    let mut untagged_count: usize = 0;
    let mut i: usize = 0;
    assert(refs_view(orphans@) =~= Seq::<(Seq<char>, Seq<char>)>::empty());
    assert(refs_view(large@) =~= Seq::<(Seq<char>, Seq<char>)>::empty());
    while i < notes.len()
        invariant
            i <= notes.entries().len(),
            ns == map_notes(*notes),
            tg == views(targets@),
            tg == inlink_targets(link_index@, ns),
            untagged_count <= i,
            refs_view(orphans@) == note_refs(ns.take(i as int), is_orphan(link_index@, ns)),
            refs_view(large@) == note_refs(ns.take(i as int), is_large()),
            untagged_count == untagged(ns.take(i as int)),
        decreases notes.entries().len() - i,
    {
        let n = notes.value_at(i);
        proof {
            assert(ns.take(i + 1).drop_last() =~= ns.take(i as int));
            assert(ns.take(i + 1).last() == *n);
        }
        let ghost ob = refs_view(orphans@);
        let ghost lb = refs_view(large@);
        assert(views(targets@) =~= targets@.map_values(|x: String| x@));
        proof {
            lemma_inlink_targets(link_index@, ns, n.path@);
        }
        if n.outgoing_links.len() == 0 && !crate::keyed::contains_string(&targets, &n.path) {
            orphans.push(NoteRef { title: n.title.clone(), path: n.path.clone() });
            assert(refs_view(orphans@) =~= ob.push((n.title@, n.path@)));
        } else {
            assert(refs_view(orphans@) =~= ob + Seq::<(Seq<char>, Seq<char>)>::empty());
        }
        if n.toc.len() == 0 && count_visible_chars(n.content_html.as_str()) > 5000 {
            large.push(NoteRef { title: n.title.clone(), path: n.path.clone() });
            assert(refs_view(large@) =~= lb.push((n.title@, n.path@)));
        } else {
            assert(refs_view(large@) =~= lb + Seq::<(Seq<char>, Seq<char>)>::empty());
        }
        if n.tags.len() == 0 {
            untagged_count += 1;
        }
        i += 1;
    }
    let tag_cloud = build_tag_cloud(tag_index);
    let (monthly_counts, daily_counts) = build_time_series(notes, now_secs);
    InsightsCache {
        computed_at: now_secs,
        total_notes: notes.len(),
        total_tags: tag_index.len(),
        total_links: links,
        orphan_notes: orphans,
        broken_links: broken,
        large_notes: large,
        untagged_count,
        tag_cloud,
        monthly_counts,
        daily_counts,
    }
}

/// The insights of a vault at `now_secs`: the totals, the broken links, the orphans, the
/// large notes, the untagged count, the tag cloud and the activity (see
/// `compute_insights`).
pub open spec fn insights_of(
    notes: StrKeyMap<Note>,
    link_index: Map<Seq<char>, String>,
    tag_index: StrKeyMap<Vec<String>>,
    now_secs: i64,
    c: InsightsCache,
) -> bool {
    let ns = map_notes(notes);
    &&& c.computed_at == now_secs
    &&& c.total_notes == notes@.len()
    &&& c.total_tags == tag_index@.len()
    &&& c.total_links == total_links(ns)
    &&& broken_view(c.broken_links@) == broken_all(notes@, link_index, ns)
    &&& refs_view(c.orphan_notes@) == note_refs(ns, is_orphan(link_index, ns))
    &&& refs_view(c.large_notes@) == note_refs(ns, is_large())
    &&& c.untagged_count == untagged(ns)
    &&& cloud_view(c.tag_cloud@) == first_n(cloud_pairs(tag_index).sort_by(cloud_le()), 200)
    &&& time_series(notes, now_secs, c.monthly_counts@, c.daily_counts@)
}

/// The number of links of all notes, or `None` when it does not fit in `usize`.
fn count_links(notes: &StrKeyMap<Note>) -> (r: Option<usize>)
    ensures
        match r {
            Some(n) => n == total_links(map_notes(*notes)),
            None => total_links(map_notes(*notes)) > usize::MAX,
        },
{
    let ghost ns = map_notes(*notes);
    let mut n: usize = 0;
    let mut i: usize = 0;
    assert(ns.take(0) =~= Seq::<Note>::empty());
    while i < notes.len()
        invariant
            i <= notes.entries().len(),
            ns == map_notes(*notes),
            n == total_links(ns.take(i as int)),
        decreases notes.entries().len() - i,
    {
        let note = notes.value_at(i);
        proof {
            assert(ns.take(i + 1).drop_last() =~= ns.take(i as int));
            assert(ns.take(i + 1).last() == *note);
            lemma_total_links_prefix(ns, i + 1);
        }
        let k = note.outgoing_links.len();
        if n > usize::MAX - k {
            return None;
        }
        n = n + k;
        i += 1;
    }
    assert(ns.take(ns.len() as int) =~= ns);
    Some(n)
}

/// The insights where `compute_insights` can compute them: a time at or after the epoch
/// whose month window has a year that fits, and a link total that fits in `usize`.
/// `None` otherwise.
pub fn compute_insights_checked(
    notes: &StrKeyMap<Note>,
    link_index: &StrKeyMap<String>,
    tag_index: &StrKeyMap<Vec<String>>,
    now_secs: i64,
) -> (r: Option<InsightsCache>)
    ensures
        r is Some <==> (now_secs >= 0 && months_window_ok(now_secs) && total_links(map_notes(*notes)) <= usize::MAX),
        r matches Some(c) ==> insights_of(*notes, link_index@, *tag_index, now_secs, c),
{
    if now_secs < 0 {
        return None;
    }
    let (y, m, _) = days_to_ymd(now_secs / 86400);
    let need: i64 = if m == 12 { 1 } else { 2 };
    if (y as i64) < (i32::MIN as i64) + need {
        return None;
    }
    match count_links(notes) {
        None => None,
        Some(_) => Some(compute_insights(notes, link_index, tag_index, now_secs)),
    }
}

/// The link total of a prefix is at most the whole total.
proof fn lemma_total_links_prefix(ns: Seq<Note>, k: int)
    requires
        0 <= k <= ns.len(),
    ensures
        total_links(ns.take(k)) <= total_links(ns),
    decreases ns.len() - k,
{
    if k < ns.len() {
        lemma_total_links_prefix(ns, k + 1);
        assert(ns.take(k + 1).drop_last() =~= ns.take(k));
    } else {
        assert(ns.take(k) =~= ns);
    }
}

} // verus!
