//! A map keyed by strings, kept as a vector of entries with distinct keys.
//!
//! Its view is a mathematical map from the key's characters to the value; the
//! order of the entries is the order in which keys were first inserted.
use vstd::prelude::*;

verus! {

/// The keys of `s` are pairwise distinct.
pub open spec fn distinct_keys<V>(s: Seq<(String, V)>) -> bool {
    forall|i: int, j: int| 0 <= i < s.len() && 0 <= j < s.len() && i != j ==> s[i].0@ != s[j].0@
}

/// Some entry of `s` has key `k`.
pub open spec fn has_key<V>(s: Seq<(String, V)>, k: Seq<char>) -> bool {
    exists|i: int| 0 <= i < s.len() && s[i].0@ == k
}

/// The map that a sequence of entries with distinct keys denotes.
pub open spec fn entries_map<V>(s: Seq<(String, V)>) -> Map<Seq<char>, V> {
    Map::new(
        |k: Seq<char>| has_key(s, k),
        |k: Seq<char>| s[choose|i: int| 0 <= i < s.len() && s[i].0@ == k].1,
    )
}

/// In a sequence with distinct keys, the entry at `i` is what the map holds for its key.
pub proof fn lemma_entries_map_at<V>(s: Seq<(String, V)>, i: int)
    requires
        distinct_keys(s),
        0 <= i < s.len(),
    ensures
        entries_map(s).contains_key(s[i].0@),
        entries_map(s)[s[i].0@] == s[i].1,
{
    let k = s[i].0@;
    assert(has_key(s, k));
    let j = choose|j: int| 0 <= j < s.len() && s[j].0@ == k;
    assert(j == i);
}

/// A map from strings to values of type `V`.
pub struct StrKeyMap<V> {
    entries: Vec<(String, V)>,
}

impl<V> View for StrKeyMap<V> {
    type V = Map<Seq<char>, V>;

    closed spec fn view(&self) -> Map<Seq<char>, V> {
        entries_map(self.entries@)
    }
}

impl<V> StrKeyMap<V> {
    #[verifier::type_invariant]
    closed spec fn inv(self) -> bool {
        distinct_keys(self.entries@)
    }

    /// The entries, in insertion order.
    pub closed spec fn entries(self) -> Seq<(String, V)> {
        self.entries@
    }

    /// The map is the one its entries denote.
    pub proof fn lemma_view_is_entries(&self)
        ensures
            self@ == entries_map(self.entries()),
    {
    }

    /// The empty map.
    pub fn new() -> (m: Self)
        ensures
            m@ == Map::<Seq<char>, V>::empty(),
            m.entries() == Seq::<(String, V)>::empty(),
    {
        let m = StrKeyMap { entries: Vec::new() };
        assert(m@ =~= Map::<Seq<char>, V>::empty());
        m
    }

    /// The number of entries.
    pub fn len(&self) -> (n: usize)
        ensures
            n == self.entries().len(),
            n == self@.len(),
            distinct_keys(self.entries()),
            self@ == entries_map(self.entries()),
    {
        proof {
            use_type_invariant(self);
            lemma_entries_map_len(self.entries@);
        }
        self.entries.len()
    }

    /// Whether there is no entry.
    pub fn is_empty(&self) -> (b: bool)
        ensures
            b == (self.entries().len() == 0),
            b == (self@.len() == 0),
    {
        self.len() == 0
    }

    /// The key of the entry at position `i`.
    pub fn key_at(&self, i: usize) -> (k: &String)
        requires
            i < self.entries().len(),
        ensures
            *k == self.entries()[i as int].0,
            distinct_keys(self.entries()),
            self@ == entries_map(self.entries()),
            self@.contains_key(k@),
            self@[k@] == self.entries()[i as int].1,
    {
        proof {
            use_type_invariant(self);
            lemma_entries_map_at(self.entries@, i as int);
        }
        &self.entries[i].0
    }

    /// The value of the entry at position `i`.
    pub fn value_at(&self, i: usize) -> (v: &V)
        requires
            i < self.entries().len(),
        ensures
            *v == self.entries()[i as int].1,
            distinct_keys(self.entries()),
            self@ == entries_map(self.entries()),
            self@.contains_key(self.entries()[i as int].0@),
            self@[self.entries()[i as int].0@] == *v,
    {
        proof {
            use_type_invariant(self);
            lemma_entries_map_at(self.entries@, i as int);
        }
        &self.entries[i].1
    }

    /// The values, in entry order.
    pub fn into_values(self) -> (r: Vec<V>)
        ensures
            r@.len() == self.entries().len(),
            forall|i: int| 0 <= i < r@.len() ==> #[trigger] r@[i] == self.entries()[i].1,
            distinct_keys(self.entries()),
            self@ == entries_map(self.entries()),
    {
        proof {
            use_type_invariant(&self);
        }
        let ghost es = self.entries@;
        let mut entries = self.entries;
        let mut r: Vec<V> = Vec::new();
        while entries.len() > 0
            invariant
                entries@.len() + r@.len() == es.len(),
                forall|i: int| 0 <= i < entries@.len() ==> #[trigger] entries@[i] == es[r@.len() + i],
                forall|i: int| 0 <= i < r@.len() ==> #[trigger] r@[i] == es[i].1,
            decreases entries@.len(),
        {
            let ghost before = entries@;
            let (_, v) = entries.remove(0);
            proof {
                assert(v == before[0].1);
            }
            r.push(v);
            proof {
                assert forall|i: int| 0 <= i < entries@.len() implies #[trigger] entries@[i] == es[r@.len() + i] by {
                    assert(entries@[i] == before[i + 1]);
                }
            }
        }
        r
    }

    /// The position of key `k`, if it is present.
    pub fn find(&self, k: &str) -> (r: Option<usize>)
        ensures
            r matches Some(i) ==> i < self.entries().len() && self.entries()[i as int].0@ == k@,
            r is None <==> !has_key(self.entries(), k@),
            r is None <==> !self@.contains_key(k@),
    {
        let key = k.to_owned();
        let mut i: usize = 0;
        while i < self.entries.len()
            invariant
                i <= self.entries@.len(),
                key@ == k@,
                forall|j: int| 0 <= j < i ==> self.entries@[j].0@ != k@,
            decreases self.entries@.len() - i,
        {
            if self.entries[i].0 == key {
                return Some(i);
            }
            i += 1;
        }
        None
    }

    /// Whether key `k` is present.
    pub fn contains_key(&self, k: &str) -> (b: bool)
        ensures
            b == self@.contains_key(k@),
    {
        self.find(k).is_some()
    }

    /// The value stored under key `k`.
    pub fn get(&self, k: &str) -> (r: Option<&V>)
        ensures
            r is Some <==> self@.contains_key(k@),
            r matches Some(v) ==> *v == self@[k@],
    {
        proof {
            use_type_invariant(self);
        }
        match self.find(k) {
            Some(i) => {
                proof {
                    lemma_entries_map_at(self.entries@, i as int);
                }
                Some(&self.entries[i].1)
            },
            None => None,
        }
    }

    /// Stores `v` under `k`, replacing the value of an existing entry in place or
    /// appending a new entry.
    pub fn insert(&mut self, k: String, v: V)
        ensures
            final(self)@ == old(self)@.insert(k@, v),
            has_key(old(self).entries(), k@) ==> final(self).entries().len() == old(self).entries().len(),
            !has_key(old(self).entries(), k@) ==> final(self).entries() == old(self).entries().push((k, v)),
            forall|i: int|
                0 <= i < old(self).entries().len() ==> #[trigger] final(self).entries()[i].0@
                    == old(self).entries()[i].0@,
    {
        proof {
            use_type_invariant(&*self);
        }
        let ghost old_entries = self.entries@;
        match self.find(k.as_str()) {
            Some(i) => {
                let mut e: Vec<(String, V)> = Vec::new();
                std::mem::swap(&mut e, &mut self.entries);
                e.set(i, (k, v));
                proof {
                    let s = e@;
                    assert(distinct_keys(s));
                    assert forall|key: Seq<char>| #![auto]
                        entries_map(s).contains_key(key) == entries_map(old_entries).insert(
                            k@,
                            v,
                        ).contains_key(key) by {
                        if has_key(old_entries, key) {
                            let j = choose|j: int| 0 <= j < old_entries.len() && old_entries[j].0@ == key;
                            assert(s[j].0@ == key);
                        }
                        if has_key(s, key) {
                            let j = choose|j: int| 0 <= j < s.len() && s[j].0@ == key;
                            assert(old_entries[j].0@ == key);
                        }
                    }
                    assert forall|key: Seq<char>| #[trigger]
                        entries_map(s).contains_key(key) implies entries_map(s)[key] == entries_map(
                        old_entries,
                    ).insert(k@, v)[key] by {
                        let j = choose|j: int| 0 <= j < s.len() && s[j].0@ == key;
                        lemma_entries_map_at(s, j);
                        if j != i {
                            lemma_entries_map_at(old_entries, j);
                        }
                    }
                    assert(entries_map(s) =~= entries_map(old_entries).insert(k@, v));
                }
                self.entries = e;
            },
            None => {
                let mut e: Vec<(String, V)> = Vec::new();
                std::mem::swap(&mut e, &mut self.entries);
                e.push((k, v));
                proof {
                    let s = e@;
                    assert(distinct_keys(s));
                    assert forall|key: Seq<char>| #![auto]
                        entries_map(s).contains_key(key) == entries_map(old_entries).insert(
                            k@,
                            v,
                        ).contains_key(key) by {
                        if has_key(old_entries, key) {
                            let j = choose|j: int| 0 <= j < old_entries.len() && old_entries[j].0@ == key;
                            assert(s[j].0@ == key);
                        }
                        if key == k@ {
                            assert(s[s.len() - 1].0@ == key);
                        }
                        if has_key(s, key) {
                            let j = choose|j: int| 0 <= j < s.len() && s[j].0@ == key;
                            if j < old_entries.len() {
                                assert(old_entries[j].0@ == key);
                            }
                        }
                    }
                    assert forall|key: Seq<char>| #[trigger]
                        entries_map(s).contains_key(key) implies entries_map(s)[key] == entries_map(
                        old_entries,
                    ).insert(k@, v)[key] by {
                        let j = choose|j: int| 0 <= j < s.len() && s[j].0@ == key;
                        lemma_entries_map_at(s, j);
                        if j < old_entries.len() {
                            lemma_entries_map_at(old_entries, j);
                        }
                    }
                    assert(entries_map(s) =~= entries_map(old_entries).insert(k@, v));
                }
                self.entries = e;
            },
        }
    }

    /// Removes the entry with key `k`, keeping the order of the others.
    pub fn remove(&mut self, k: &str) -> (r: Option<V>)
        ensures
            final(self)@ == old(self)@.remove(k@),
            r is Some <==> old(self)@.contains_key(k@),
            r matches Some(v) ==> v == old(self)@[k@],
    {
        proof {
            use_type_invariant(&*self);
        }
        let ghost old_entries = self.entries@;
        match self.find(k) {
            Some(i) => {
                proof {
                    lemma_entries_map_at(old_entries, i as int);
                }
                let mut e: Vec<(String, V)> = Vec::new();
                std::mem::swap(&mut e, &mut self.entries);
                let (_, v) = e.remove(i);
                proof {
                    let s = e@;
                    assert forall|a: int, b: int|
                        0 <= a < s.len() && 0 <= b < s.len() && a != b implies s[a].0@ != s[b].0@ by {
                        let a2 = if a < i { a } else { a + 1 };
                        let b2 = if b < i { b } else { b + 1 };
                        assert(s[a] == old_entries[a2]);
                        assert(s[b] == old_entries[b2]);
                    }
                    assert forall|key: Seq<char>| #![auto]
                        entries_map(s).contains_key(key) == entries_map(old_entries).remove(
                            k@,
                        ).contains_key(key) by {
                        if has_key(s, key) {
                            let j = choose|j: int| 0 <= j < s.len() && s[j].0@ == key;
                            let j2 = if j < i { j } else { j + 1 };
                            assert(s[j] == old_entries[j2]);
                            assert(j2 != i);
                        }
                        if has_key(old_entries, key) && key != k@ {
                            let j = choose|j: int| 0 <= j < old_entries.len() && old_entries[j].0@ == key;
                            assert(j != i);
                            let j2 = if j < i { j } else { j - 1 };
                            assert(s[j2] == old_entries[j]);
                        }
                    }
                    assert forall|key: Seq<char>| #[trigger]
                        entries_map(s).contains_key(key) implies entries_map(s)[key] == entries_map(
                        old_entries,
                    ).remove(k@)[key] by {
                        let j = choose|j: int| 0 <= j < s.len() && s[j].0@ == key;
                        lemma_entries_map_at(s, j);
                        let j2 = if j < i { j } else { j + 1 };
                        assert(s[j] == old_entries[j2]);
                        lemma_entries_map_at(old_entries, j2);
                    }
                    assert(entries_map(s) =~= entries_map(old_entries).remove(k@));
                }
                self.entries = e;
                Some(v)
            },
            None => {
                assert(entries_map(old_entries) =~= entries_map(old_entries).remove(k@));
                None
            },
        }
    }
}

/// The map without the entries whose value is one of `excluded`.
pub open spec fn without_values(m: Map<Seq<char>, String>, excluded: Seq<Seq<char>>) -> Map<
    Seq<char>,
    String,
> {
    Map::new(|k: Seq<char>| m.contains_key(k) && !excluded.contains(m[k]@), |k: Seq<char>| m[k])
}

/// Whether `s` equals one of the strings of `v`.
pub fn contains_string(v: &Vec<String>, s: &String) -> (b: bool)
    ensures
        b == v@.map_values(|x: String| x@).contains(s@),
{
    let ghost vs = v@.map_values(|x: String| x@);
    let mut i: usize = 0;
    while i < v.len()
        invariant
            i <= v@.len(),
            vs == v@.map_values(|x: String| x@),
            forall|j: int| 0 <= j < i ==> v@[j]@ != s@,
        decreases v@.len() - i,
    {
        if v[i] == *s {
            assert(vs[i as int] == s@);
            return true;
        }
        i += 1;
    }
    assert forall|j: int| 0 <= j < vs.len() implies #[trigger] vs[j] != s@ by {}
    false
}

impl StrKeyMap<String> {
    /// Drops the entries whose value is one of `excluded`, keeping the order of the others.
    pub fn retain_values_not_in(&mut self, excluded: &Vec<String>)
        ensures
            final(self)@ == without_values(old(self)@, excluded@.map_values(|x: String| x@)),
    {
        proof {
            use_type_invariant(&*self);
        }
        let ghost ex = excluded@.map_values(|x: String| x@);
        let ghost old_entries = self.entries@;
        let mut kept: Vec<(String, String)> = Vec::new();
        let ghost mut src: Seq<int> = Seq::empty();
        let mut i: usize = 0;
        while i < self.entries.len()
            invariant
                i <= old_entries.len(),
                self.entries@ == old_entries,
                distinct_keys(old_entries),
                ex == excluded@.map_values(|x: String| x@),
                src.len() == kept@.len(),
                forall|a: int| 0 <= a < src.len() ==> 0 <= #[trigger] src[a] < i,
                forall|a: int, b: int| 0 <= a < b < src.len() ==> src[a] < src[b],
                forall|a: int| 0 <= a < src.len() ==> #[trigger] kept@[a] == old_entries[src[a]],
                forall|a: int| 0 <= a < src.len() ==> !ex.contains(#[trigger] old_entries[src[a]].1@),
                forall|j: int| 0 <= j < i && !ex.contains(old_entries[j].1@) ==> has_key(kept@, #[trigger] old_entries[j].0@),
            decreases old_entries.len() - i,
        {
            let keep = !contains_string(excluded, &self.entries[i].1);
            if keep {
                let e = (self.entries[i].0.clone(), self.entries[i].1.clone());
                let ghost pre = kept@;
                kept.push(e);
                proof {
                    src = src.push(i as int);
                    assert(kept@[pre.len() as int] == old_entries[i as int]);
                    assert forall|j: int| 0 <= j < i + 1 && !ex.contains(old_entries[j].1@) implies has_key(kept@, #[trigger] old_entries[j].0@) by {
                        if j < i {
                            let a = choose|a: int| 0 <= a < pre.len() && pre[a].0@ == old_entries[j].0@;
                            assert(kept@[a] == pre[a]);
                        } else {
                            assert(kept@[pre.len() as int].0@ == old_entries[j].0@);
                        }
                    }
                }
            }
            i += 1;
        }
        proof {
            let s = kept@;
            assert forall|a: int, b: int| 0 <= a < s.len() && 0 <= b < s.len() && a != b implies s[a].0@ != s[b].0@ by {
                assert(s[a] == old_entries[src[a]]);
                assert(s[b] == old_entries[src[b]]);
                assert(src[a] != src[b]);
            }
            let target = without_values(entries_map(old_entries), ex);
            assert forall|k: Seq<char>| #![auto] entries_map(s).contains_key(k) == target.contains_key(k) by {
                if has_key(s, k) {
                    let a = choose|a: int| 0 <= a < s.len() && s[a].0@ == k;
                    assert(s[a] == old_entries[src[a]]);
                    lemma_entries_map_at(old_entries, src[a]);
                }
                if target.contains_key(k) {
                    let j = choose|j: int| 0 <= j < old_entries.len() && old_entries[j].0@ == k;
                    lemma_entries_map_at(old_entries, j);
                }
            }
            assert forall|k: Seq<char>| #[trigger] entries_map(s).contains_key(k) implies entries_map(s)[k] == target[k] by {
                let a = choose|a: int| 0 <= a < s.len() && s[a].0@ == k;
                lemma_entries_map_at(s, a);
                assert(s[a] == old_entries[src[a]]);
                lemma_entries_map_at(old_entries, src[a]);
            }
            assert(entries_map(s) =~= target);
        }
        self.entries = kept;
    }
}

/// The map of a sequence with distinct keys has one key per entry.
pub proof fn lemma_entries_map_len<V>(s: Seq<(String, V)>)
    requires
        distinct_keys(s),
    ensures
        entries_map(s).len() == s.len(),
        entries_map(s).dom().finite(),
    decreases s.len(),
{
    let keys = s.map_values(|e: (String, V)| e.0@);
    assert(entries_map(s).dom() =~= keys.to_set()) by {
        assert forall|k: Seq<char>| #[trigger] keys.to_set().contains(k) implies has_key(s, k) by {
            let i = choose|i: int| 0 <= i < keys.len() && keys[i] == k;
            assert(s[i].0@ == k);
        }
        assert forall|k: Seq<char>| has_key(s, k) implies #[trigger] keys.to_set().contains(k) by {
            let i = choose|i: int| 0 <= i < s.len() && s[i].0@ == k;
            assert(keys[i] == k);
        }
    }
    assert(keys.no_duplicates()) by {
        assert forall|i: int, j: int| 0 <= i < keys.len() && 0 <= j < keys.len() && i != j implies keys[i] != keys[j] by {
        }
    }
    keys.unique_seq_to_set();
}

} // verus!
