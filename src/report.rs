//! The final report of a watch, and how a table of statuses splits into it.
use vstd::prelude::*;

use crate::status::{distinct_keys, keys, FileStatus, Table};

verus! {

/// What a watch found, split by outcome. Each tracked path is in exactly one
/// of the four parts.
pub struct FileResults<T, E> {
    /// Paths whose modification time could not be read, with the reason.
    pub skipped: Vec<(String, String)>,
    /// Paths that were not processed because the watch stopped before they
    /// matured, or before their outcome was known.
    pub not_processed: Vec<String>,
    /// Paths that the processing function accepted, with its success values.
    pub completed: Vec<(String, T)>,
    /// Paths that the processing function rejected, with its failure values.
    pub errored: Vec<(String, E)>,
}

/// The pairs of a list keyed by strings, with each key as its characters.
pub open spec fn keyed_view<V>(v: Seq<(String, V)>) -> Seq<(Seq<char>, V)> {
    v.map_values(|e: (String, V)| (e.0@, e.1))
}

impl<T, E> FileResults<T, E> {
    pub open spec fn completed_view(&self) -> Seq<(Seq<char>, T)> {
        keyed_view(self.completed@)
    }

    pub open spec fn errored_view(&self) -> Seq<(Seq<char>, E)> {
        keyed_view(self.errored@)
    }

    pub open spec fn skipped_view(&self) -> Seq<(Seq<char>, String)> {
        keyed_view(self.skipped@)
    }

    pub open spec fn not_processed_view(&self) -> Seq<Seq<char>> {
        self.not_processed@.map_values(|p: String| p@)
    }
}

/// The processed entries of a table, in order, with their success values.
pub open spec fn completed_of<T, E>(s: Table<T, E>) -> Seq<(Seq<char>, T)>
    decreases s.len(),
{
    if s.len() == 0 {
        seq![]
    } else {
        let rest = completed_of(s.drop_last());
        match s.last().1 {
            FileStatus::Processed(t) => rest.push((s.last().0, t)),
            _ => rest,
        }
    }
}

/// The errored entries of a table, in order, with their failure values.
pub open spec fn errored_of<T, E>(s: Table<T, E>) -> Seq<(Seq<char>, E)>
    decreases s.len(),
{
    if s.len() == 0 {
        seq![]
    } else {
        let rest = errored_of(s.drop_last());
        match s.last().1 {
            FileStatus::Errored(e) => rest.push((s.last().0, e)),
            _ => rest,
        }
    }
}

/// The skipped entries of a table, in order, with their reasons.
pub open spec fn skipped_of<T, E>(s: Table<T, E>) -> Seq<(Seq<char>, String)>
    decreases s.len(),
{
    if s.len() == 0 {
        seq![]
    } else {
        let rest = skipped_of(s.drop_last());
        match s.last().1 {
            FileStatus::Skipped(r) => rest.push((s.last().0, r)),
            _ => rest,
        }
    }
}

/// Whether a status leaves its path unprocessed when the watch stops.
pub open spec fn is_pending<T, E>(st: FileStatus<T, E>) -> bool {
    st is Seen || st is Claimed
}

/// The paths of a table that are seen or claimed, in order.
pub open spec fn pending_of<T, E>(s: Table<T, E>) -> Seq<Seq<char>>
    decreases s.len(),
{
    if s.len() == 0 {
        seq![]
    } else {
        let rest = pending_of(s.drop_last());
        if is_pending(s.last().1) {
            rest.push(s.last().0)
        } else {
            rest
        }
    }
}

/// Whether a list keyed by paths holds the path `p`.
pub open spec fn has_key<V>(v: Seq<(Seq<char>, V)>, p: Seq<char>) -> bool {
    exists|i: int| 0 <= i < v.len() && #[trigger] v[i].0 == p
}

/// In how many of the four parts of the report made from `s` the path `p` is.
pub open spec fn parts_holding<T, E>(s: Table<T, E>, p: Seq<char>) -> int {
    (if has_key(completed_of(s), p) { 1int } else { 0 }) + (if has_key(errored_of(s), p) {
        1int
    } else {
        0
    }) + (if has_key(skipped_of(s), p) { 1int } else { 0 }) + (if pending_of(s).contains(p) {
        1int
    } else {
        0
    })
}

/// Where each path of a table goes in the report.
proof fn lemma_parts_of<T, E>(s: Table<T, E>, p: Seq<char>)
    ensures
        completed_of(s).len() + errored_of(s).len() + skipped_of(s).len() + pending_of(
            s,
        ).len() == s.len(),
        has_key(completed_of(s), p) <==> exists|k: int|
            0 <= k < s.len() && s[k].0 == p && #[trigger] s[k].1 is Processed,
        has_key(errored_of(s), p) <==> exists|k: int|
            0 <= k < s.len() && s[k].0 == p && #[trigger] s[k].1 is Errored,
        has_key(skipped_of(s), p) <==> exists|k: int|
            0 <= k < s.len() && s[k].0 == p && #[trigger] s[k].1 is Skipped,
        pending_of(s).contains(p) <==> exists|k: int|
            0 <= k < s.len() && s[k].0 == p && #[trigger] is_pending(s[k].1),
    decreases s.len(),
{
    if s.len() > 0 {
        let r = s.drop_last();
        lemma_parts_of(r, p);
        let n = s.len() - 1;
        assert forall|k: int| 0 <= k < n implies s[k] == r[k] by {}
        let c = completed_of(r);
        let e = errored_of(r);
        let sk = skipped_of(r);
        let pd = pending_of(r);
        if has_key(completed_of(s), p) {
            let i = choose|i: int| 0 <= i < completed_of(s).len() && #[trigger] completed_of(s)[i].0 == p;
            if i < c.len() {
                assert(c[i].0 == p);
                let k = choose|k: int| 0 <= k < r.len() && r[k].0 == p && #[trigger] r[k].1 is Processed;
                assert(s[k].1 is Processed);
            } else {
                assert(s[n].1 is Processed);
            }
        }
        if exists|k: int| 0 <= k < s.len() && s[k].0 == p && #[trigger] s[k].1 is Processed {
            let k = choose|k: int| 0 <= k < s.len() && s[k].0 == p && #[trigger] s[k].1 is Processed;
            if k < n {
                assert(r[k].1 is Processed);
                let i = choose|i: int| 0 <= i < c.len() && #[trigger] c[i].0 == p;
                assert(completed_of(s)[i] == c[i]);
            } else {
                assert(completed_of(s)[c.len() as int].0 == p);
            }
        }
        if has_key(errored_of(s), p) {
            let i = choose|i: int| 0 <= i < errored_of(s).len() && #[trigger] errored_of(s)[i].0 == p;
            if i < e.len() {
                assert(e[i].0 == p);
                let k = choose|k: int| 0 <= k < r.len() && r[k].0 == p && #[trigger] r[k].1 is Errored;
                assert(s[k].1 is Errored);
            } else {
                assert(s[n].1 is Errored);
            }
        }
        if exists|k: int| 0 <= k < s.len() && s[k].0 == p && #[trigger] s[k].1 is Errored {
            let k = choose|k: int| 0 <= k < s.len() && s[k].0 == p && #[trigger] s[k].1 is Errored;
            if k < n {
                assert(r[k].1 is Errored);
                let i = choose|i: int| 0 <= i < e.len() && #[trigger] e[i].0 == p;
                assert(errored_of(s)[i] == e[i]);
            } else {
                assert(errored_of(s)[e.len() as int].0 == p);
            }
        }
        if has_key(skipped_of(s), p) {
            let i = choose|i: int| 0 <= i < skipped_of(s).len() && #[trigger] skipped_of(s)[i].0 == p;
            if i < sk.len() {
                assert(sk[i].0 == p);
                let k = choose|k: int| 0 <= k < r.len() && r[k].0 == p && #[trigger] r[k].1 is Skipped;
                assert(s[k].1 is Skipped);
            } else {
                assert(s[n].1 is Skipped);
            }
        }
        if exists|k: int| 0 <= k < s.len() && s[k].0 == p && #[trigger] s[k].1 is Skipped {
            let k = choose|k: int| 0 <= k < s.len() && s[k].0 == p && #[trigger] s[k].1 is Skipped;
            if k < n {
                assert(r[k].1 is Skipped);
                let i = choose|i: int| 0 <= i < sk.len() && #[trigger] sk[i].0 == p;
                assert(skipped_of(s)[i] == sk[i]);
            } else {
                assert(skipped_of(s)[sk.len() as int].0 == p);
            }
        }
        if pending_of(s).contains(p) {
            let i = choose|i: int| 0 <= i < pending_of(s).len() && #[trigger] pending_of(s)[i] == p;
            if i < pd.len() {
                assert(pd[i] == p);
                let k = choose|k: int| 0 <= k < r.len() && r[k].0 == p && #[trigger] is_pending(r[k].1);
                assert(is_pending(s[k].1));
            } else {
                assert(is_pending(s[n].1));
            }
        }
        if exists|k: int| 0 <= k < s.len() && s[k].0 == p && #[trigger] is_pending(s[k].1) {
            let k = choose|k: int| 0 <= k < s.len() && s[k].0 == p && #[trigger] is_pending(s[k].1);
            if k < n {
                assert(is_pending(r[k].1));
                let i = choose|i: int| 0 <= i < pd.len() && #[trigger] pd[i] == p;
                assert(pending_of(s)[i] == pd[i]);
            } else {
                assert(pending_of(s)[pd.len() as int] == p);
            }
        }
    }
}

/// The report made from a table of distinct paths partitions them: its four
/// parts together are as long as the table, and each path of the table is in
/// exactly one part, while no other path is in any.
pub proof fn lemma_partition<T, E>(s: Table<T, E>)
    requires
        distinct_keys(s),
    ensures
        completed_of(s).len() + errored_of(s).len() + skipped_of(s).len() + pending_of(
            s,
        ).len() == s.len(),
        forall|p: Seq<char>|
            #[trigger] parts_holding(s, p) == if keys(s).contains(p) {
                1int
            } else {
                0
            },
{
    lemma_parts_of(s, Seq::empty());
    assert forall|p: Seq<char>|
        #[trigger] parts_holding(s, p) == if keys(s).contains(p) {
            1int
        } else {
            0
        } by {
        lemma_parts_of(s, p);
        if keys(s).contains(p) {
            let k = choose|k: int| 0 <= k < keys(s).len() && keys(s)[k] == p;
            assert(s[k].0 == p);
            assert forall|j: int| 0 <= j < s.len() && s[j].0 == p implies j == k by {
                if j < k {
                    assert(s[j].0 != s[k].0);
                } else if k < j {
                    assert(s[k].0 != s[j].0);
                }
            }
            match s[k].1 {
                FileStatus::Processed(_) => {
                    assert(s[k].1 is Processed);
                },
                FileStatus::Errored(_) => {
                    assert(s[k].1 is Errored);
                },
                FileStatus::Skipped(_) => {
                    assert(s[k].1 is Skipped);
                },
                _ => {
                    assert(is_pending(s[k].1));
                },
            }
        } else {
            assert forall|j: int| 0 <= j < s.len() implies s[j].0 != p by {
                assert(keys(s)[j] == s[j].0);
            }
        }
    }
}

} // verus!
