//! Whether the indexes saved by an earlier run may be used again.
use vstd::prelude::*;
use crate::config::views;
use crate::text::str_eq;

verus! {

/// The version of the saved index format.
pub const CURRENT_VERSION: u32 = 1;

/// What is saved beside the indexes: the commit they were built from, when they were
/// saved, the format version and the ignore patterns in force.
pub struct PersistenceMetadata {
    pub git_commit: String,
    /// Seconds since the Unix epoch.
    pub saved_at: i64,
    pub version: u32,
    pub ignore_patterns: Vec<String>,
}

/// Saved indexes are reused only when they have the current format, were built from the
/// commit checked out now and under the same ignore patterns.
pub open spec fn reusable(meta: PersistenceMetadata, commit: Seq<char>, patterns: Seq<Seq<char>>) -> bool {
    meta.version == CURRENT_VERSION && meta.git_commit@ == commit && views(meta.ignore_patterns@) == patterns
}

/// Whether two lists of strings are equal.
fn same_strings(a: &Vec<String>, b: &Vec<String>) -> (r: bool)
    ensures
        r == (views(a@) == views(b@)),
{
    if a.len() != b.len() {
        assert(views(a@).len() != views(b@).len());
        return false;
    }
    let mut i: usize = 0;
    while i < a.len()
        invariant
            i <= a@.len(),
            a@.len() == b@.len(),
            forall|k: int| 0 <= k < i ==> a@[k]@ == b@[k]@,
        decreases a@.len() - i,
    {
        if !str_eq(a[i].as_str(), b[i].as_str()) {
            assert(views(a@)[i as int] != views(b@)[i as int]);
            return false;
        }
        i += 1;
    }
    assert(views(a@) =~= views(b@));
    true
}

impl PersistenceMetadata {
    /// Whether the saved indexes may be loaded (see `reusable`).
    pub fn matches(&self, current_commit: &str, current_patterns: &Vec<String>) -> (r: bool)
        ensures
            r == reusable(*self, current_commit@, views(current_patterns@)),
    {
        self.version == CURRENT_VERSION && str_eq(self.git_commit.as_str(), current_commit) && same_strings(
            &self.ignore_patterns,
            current_patterns,
        )
    }
}

/// The batches in which `n` records are written, `size` to a transaction: the ranges
/// `[k * size, min((k + 1) * size, n))`, in order.
pub fn write_batches(n: usize, size: usize) -> (r: Vec<(usize, usize)>)
    requires
        size > 0,
    ensures
        r@.len() == (if n == 0 { 0 } else { (n - 1) / size as int + 1 }),
        forall|k: int| 0 <= k < r@.len() ==> (#[trigger] r@[k]).0 == k * size && r@[k].1 == (if (k + 1) * size < n {
            (k + 1) * size
        } else {
            n as int
        }),
{
    let mut r: Vec<(usize, usize)> = Vec::new();
    let mut start: usize = 0;
    assert(r@.len() * size == 0) by (nonlinear_arith)
        requires
            r@.len() == 0,
    ;
    while start < n
        invariant
            size > 0,
            start <= n,
            n == 0 || start < n,
            r@.len() * size == start,
            forall|k: int| 0 <= k < r@.len() ==> (#[trigger] r@[k]).0 == k * size && r@[k].1 == (if (k + 1) * size < n {
                (k + 1) * size
            } else {
                n as int
            }),
        decreases n - start,
    {
        let end = if size < n - start {
            start + size
        } else {
            n
        };
        proof {
            assert((r@.len() + 1) * size == r@.len() * size + size) by (nonlinear_arith);
        }
        r.push((start, end));
        start = end;
        if end == n {
            proof {
                assert(r@.len() == (n - 1) / size as int + 1) by (nonlinear_arith)
                    requires
                        r@.len() * size >= n,
                        (r@.len() - 1) * size < n,
                        size > 0,
                        n > 0,
                ;
            }
            return r;
        }
    }
    assert(r@.len() == 0) by (nonlinear_arith)
        requires
            r@.len() * size == 0,
            size > 0,
    ;
    r
}

} // verus!
