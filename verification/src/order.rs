//! The order of `String`: lexicographic by character (which is the order of the
//! UTF-8 bytes), and sorting of string vectors by it.
use vstd::prelude::*;
use vstd::relations::{sorted_by, total_ordering};
use crate::config::views;
use crate::text::str_to_chars;

verus! {

/// `a` comes strictly before `b` in lexicographic character order.
pub open spec fn seq_lt(a: Seq<char>, b: Seq<char>) -> bool
    decreases a.len(),
{
    if a.len() == 0 {
        b.len() > 0
    } else if b.len() == 0 {
        false
    } else if a[0] != b[0] {
        a[0] < b[0]
    } else {
        seq_lt(a.drop_first(), b.drop_first())
    }
}

/// `a` comes before `b` or equals it.
pub open spec fn seq_le(a: Seq<char>, b: Seq<char>) -> bool {
    a == b || seq_lt(a, b)
}

/// The order relation used to sort strings.
pub open spec fn str_le() -> spec_fn(Seq<char>, Seq<char>) -> bool {
    |a: Seq<char>, b: Seq<char>| seq_le(a, b)
}

/// No string comes before itself.
pub proof fn lemma_lt_irreflexive(a: Seq<char>)
    ensures
        !seq_lt(a, a),
    decreases a.len(),
{
    if a.len() > 0 {
        lemma_lt_irreflexive(a.drop_first());
    }
}

/// Two different strings are ordered one way or the other, and not both.
pub proof fn lemma_lt_total(a: Seq<char>, b: Seq<char>)
    ensures
        a != b ==> (seq_lt(a, b) || seq_lt(b, a)),
        !(seq_lt(a, b) && seq_lt(b, a)),
    decreases a.len(),
{
    if a.len() > 0 && b.len() > 0 && a[0] == b[0] {
        lemma_lt_total(a.drop_first(), b.drop_first());
        if a != b {
            assert(a.drop_first() != b.drop_first()) by {
                if a.drop_first() == b.drop_first() {
                    assert(a =~= seq![a[0]] + a.drop_first());
                    assert(b =~= seq![b[0]] + b.drop_first());
                }
            }
        }
    } else if a.len() == 0 && b.len() == 0 {
        assert(a =~= b);
    }
}

/// The order is transitive.
pub proof fn lemma_lt_transitive(a: Seq<char>, b: Seq<char>, c: Seq<char>)
    requires
        seq_lt(a, b),
        seq_lt(b, c),
    ensures
        seq_lt(a, c),
    decreases a.len(),
{
    if a.len() > 0 && b.len() > 0 && c.len() > 0 && a[0] == b[0] && b[0] == c[0] {
        lemma_lt_transitive(a.drop_first(), b.drop_first(), c.drop_first());
    }
}

/// `str_le` is a total order.
pub proof fn lemma_str_le_total()
    ensures
        total_ordering(str_le()),
{
    let r = str_le();
    assert forall|x: Seq<char>| #[trigger] r(x, x) by {}
    assert forall|x: Seq<char>, y: Seq<char>| #[trigger] r(x, y) && #[trigger] r(y, x) implies x == y by {
        lemma_lt_total(x, y);
    }
    assert forall|x: Seq<char>, y: Seq<char>, z: Seq<char>| #[trigger] r(x, y) && #[trigger] r(y, z) implies r(x, z) by {
        if x != y && y != z {
            lemma_lt_transitive(x, y, z);
        }
    }
    assert forall|x: Seq<char>, y: Seq<char>| #[trigger] r(x, y) || #[trigger] r(y, x) by {
        lemma_lt_total(x, y);
    }
}

/// Whether `a` comes strictly before `b`.
pub fn chars_lt(a: &Vec<char>, b: &Vec<char>) -> (r: bool)
    ensures
        r == seq_lt(a@, b@),
{
    let mut i: usize = 0;
    assert(a@.skip(0) =~= a@ && b@.skip(0) =~= b@);
    while i < a.len() && i < b.len()
        invariant
            i <= a.len(),
            i <= b.len(),
            seq_lt(a@, b@) == seq_lt(a@.skip(i as int), b@.skip(i as int)),
        decreases a.len() - i,
    {
        if a[i] != b[i] {
            return a[i] < b[i];
        }
        assert(a@.skip(i as int).drop_first() =~= a@.skip(i + 1));
        assert(b@.skip(i as int).drop_first() =~= b@.skip(i + 1));
        i += 1;
    }
    i < b.len()
}

/// Whether string `a` comes strictly before string `b`.
pub fn str_lt(a: &str, b: &str) -> (r: bool)
    ensures
        r == seq_lt(a@, b@),
{
    let va = str_to_chars(a);
    let vb = str_to_chars(b);
    chars_lt(&va, &vb)
}

/// The first position of `out` whose string comes strictly after `x`.
fn insert_position(out: &Vec<String>, x: &String) -> (p: usize)
    ensures
        p <= out@.len(),
        forall|j: int| 0 <= j < p ==> seq_le(#[trigger] out@[j]@, x@),
        p < out@.len() ==> seq_lt(x@, out@[p as int]@),
{
    let xc = str_to_chars(x.as_str());
    let mut p: usize = 0;
    while p < out.len()
        invariant
            p <= out.len(),
            xc@ == x@,
            forall|j: int| 0 <= j < p ==> seq_le(#[trigger] out@[j]@, x@),
        decreases out.len() - p,
    {
        let oc = str_to_chars(out[p].as_str());
        if chars_lt(&xc, &oc) {
            return p;
        }
        proof {
            lemma_lt_total(xc@, oc@);
        }
        p += 1;
    }
    p
}

/// The strings of `v` in ascending order, equal strings kept in their original order
/// (as `slice::sort` orders `String`s).
pub fn sort_strings(v: Vec<String>) -> (r: Vec<String>)
    ensures
        views(r@) == views(v@).sort_by(str_le()),
{
    let mut out: Vec<String> = Vec::new();
    let mut i: usize = 0;
    proof {
        lemma_str_le_total();
        assert(views(out@) =~= views(v@.take(0)));
    }
    while i < v.len()
        invariant
            i <= v.len(),
            total_ordering(str_le()),
            sorted_by(views(out@), str_le()),
            views(out@).to_multiset() == views(v@.take(i as int)).to_multiset(),
        decreases v.len() - i,
    {
        let x = v[i].clone();
        let p = insert_position(&out, &x);
        let ghost before = out@;
        out.insert(p, x);
        proof {
            let vo = views(out@);
            let vb = views(before);
            assert(vo =~= vb.insert(p as int, x@));
            assert forall|a: int, b: int| 0 <= a < b < vo.len() implies #[trigger] str_le()(vo[a], vo[b]) by {
                if a < p && b > p {
                    assert(seq_le(vb[a], x@));
                    assert(seq_le(x@, vb[b - 1])) by {
                        if b - 1 > p {
                            assert(str_le()(vb[p as int], vb[b - 1]));
                            if vb[p as int] != vb[b - 1] {
                                lemma_lt_transitive(x@, vb[p as int], vb[b - 1]);
                            }
                        }
                    }
                    if vb[a] != x@ && x@ != vb[b - 1] {
                        lemma_lt_transitive(vb[a], x@, vb[b - 1]);
                    }
                } else if a == p && b > p {
                    if b - 1 > p {
                        assert(str_le()(vb[p as int], vb[b - 1]));
                        if vb[p as int] != vb[b - 1] {
                            lemma_lt_transitive(x@, vb[p as int], vb[b - 1]);
                        }
                    }
                } else if a < p && b == p {
                } else if b < p {
                    assert(str_le()(vb[a], vb[b]));
                } else {
                    assert(str_le()(vb[a - 1], vb[b - 1]));
                }
            }
            vstd::seq_lib::to_multiset_insert(vb, p as int, x@);
            assert(v@.take(i + 1) =~= v@.take(i as int).push(v@[i as int]));
            assert(views(v@.take(i + 1)) =~= views(v@.take(i as int)).push(x@));
            vstd::seq_lib::to_multiset_build(views(v@.take(i as int)), x@);
        }
        i += 1;
    }
    proof {
        assert(v@.take(v@.len() as int) =~= v@);
        views(v@).lemma_sort_by_ensures(str_le());
        vstd::seq_lib::lemma_sorted_unique(views(out@), views(v@).sort_by(str_le()), str_le());
    }
    out
}

} // verus!
