//! The status of one tracked path, and views of a table of such statuses.
use vstd::prelude::*;

verus! {

/// What is known of one tracked path. A path holds exactly one status.
///
/// `Seen` is refreshed by every tick that observes the path; the other
/// variants are never revisited by the tracker once set.
#[derive(Debug)]
pub enum FileStatus<T, E> {
    /// Its modification time could not be read; holds the reason.
    Skipped(String),
    /// Observed with this modification time (nanoseconds since the epoch),
    /// not yet mature.
    Seen(u64),
    /// Mature and handed out for processing; the outcome is not known yet.
    Claimed,
    /// The processing function returned this success value.
    Processed(T),
    /// The processing function returned this failure value.
    Errored(E),
}

/// A table of tracked paths, in order of first observation.
pub type Table<T, E> = Seq<(Seq<char>, FileStatus<T, E>)>;

/// The paths of a list keyed by paths, in order.
pub open spec fn keys<V>(s: Seq<(Seq<char>, V)>) -> Seq<Seq<char>> {
    s.map_values(|e: (Seq<char>, V)| e.0)
}

/// No path occurs twice in the list.
pub open spec fn distinct_keys<V>(s: Seq<(Seq<char>, V)>) -> bool {
    forall|i: int, j: int| 0 <= i < j < s.len() ==> #[trigger] s[i].0 != #[trigger] s[j].0
}

/// The last position of `p` in `ks`, or -1 where it does not occur.
pub open spec fn position(ks: Seq<Seq<char>>, p: Seq<char>) -> int
    decreases ks.len(),
{
    if ks.len() == 0 {
        -1
    } else if ks.last() == p {
        ks.len() - 1
    } else {
        position(ks.drop_last(), p)
    }
}

/// Where `p` stands in the list, or -1.
pub open spec fn index_of<V>(s: Seq<(Seq<char>, V)>, p: Seq<char>) -> int {
    position(keys(s), p)
}

pub proof fn lemma_position(ks: Seq<Seq<char>>, p: Seq<char>)
    ensures
        -1 <= position(ks, p) < ks.len(),
        position(ks, p) >= 0 ==> ks[position(ks, p)] == p,
        position(ks, p) < 0 ==> forall|j: int| 0 <= j < ks.len() ==> ks[j] != p,
    decreases ks.len(),
{
    if ks.len() > 0 {
        lemma_position(ks.drop_last(), p);
        if ks.last() != p {
            assert forall|j: int| 0 <= j < ks.len() - 1 implies ks[j] == ks.drop_last()[j] by {}
        }
    }
}

/// Where `index_of` finds `p`, `p` stands there and nowhere else; where it
/// finds nothing, `p` is not in the table.
pub proof fn lemma_index_of<V>(s: Seq<(Seq<char>, V)>, p: Seq<char>)
    requires
        distinct_keys(s),
    ensures
        -1 <= index_of(s, p) < s.len(),
        index_of(s, p) >= 0 ==> s[index_of(s, p)].0 == p,
        forall|j: int| 0 <= j < s.len() && s[j].0 == p ==> j == index_of(s, p),
{
    lemma_position(keys(s), p);
    let i = index_of(s, p);
    assert forall|j: int| 0 <= j < s.len() && s[j].0 == p implies j == i by {
        assert(keys(s)[j] == s[j].0);
        if i >= 0 {
            assert(keys(s)[i] == s[i].0);
            if j < i {
                assert(s[j].0 != s[i].0);
            } else if i < j {
                assert(s[i].0 != s[j].0);
            }
        }
    }
}

/// Replacing the value of an entry keeps the paths, and so where each path
/// stands.
pub proof fn lemma_keys_update<V>(s: Seq<(Seq<char>, V)>, i: int, st: V)
    requires
        0 <= i < s.len(),
    ensures
        keys(s.update(i, (s[i].0, st))) == keys(s),
        forall|q: Seq<char>| index_of(s.update(i, (s[i].0, st)), q) == index_of(s, q),
        distinct_keys(s) ==> distinct_keys(s.update(i, (s[i].0, st))),
{
    assert(keys(s.update(i, (s[i].0, st))) =~= keys(s));
}

} // verus!
