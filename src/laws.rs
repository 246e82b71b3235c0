//! Properties that relate several operations of the tracker and the stop
//! evaluator.
use vstd::prelude::*;

use crate::report::completed_of;
use crate::status::{
    distinct_keys, index_of, keys, lemma_index_of, lemma_keys_update, lemma_position, FileStatus, Table,
};
use crate::stop::{span_passed, stop_spec, StopCondition};
use crate::tracker::{
    count_processed, failed, is_claimed, observed, outcome_status, refreshes, scanned, settled,
    settled_all,
};

verus! {

/// Adding a different path at the end keeps where `p` stands.
proof fn lemma_index_of_push<V>(s: Seq<(Seq<char>, V)>, e: (Seq<char>, V), p: Seq<char>)
    ensures
        e.0 != p ==> index_of(s.push(e), p) == index_of(s, p),
        index_of(s.push(e), e.0) == s.len(),
{
    assert(keys(s.push(e)) =~= keys(s).push(e.0));
    assert(keys(s.push(e)).drop_last() =~= keys(s));
}

/// Maturity timing: an observation claims a new or seen path exactly when its
/// modification time lies at least the threshold before the instant of the
/// observation, and leaves it seen otherwise; recording an outcome only ever
/// moves a claimed path, never a seen one. So a path reaches a processing
/// outcome only after its timestamp has been quiet for the threshold.
pub proof fn lemma_maturity_timing<T, E>(
    s: Table<T, E>,
    p: Seq<char>,
    m: u64,
    now: u64,
    threshold: u64,
    q: Seq<char>,
    o: Result<T, E>,
)
    requires
        distinct_keys(s),
        refreshes(s, p),
    ensures
        index_of(observed(s, p, m, now, threshold), p) >= 0,
        observed(s, p, m, now, threshold)[index_of(observed(s, p, m, now, threshold), p)].1
            == if span_passed(m, now, threshold) {
            FileStatus::<T, E>::Claimed
        } else {
            FileStatus::<T, E>::Seen(m)
        },
        forall|k: int| #![auto] 0 <= k < s.len() && s[k].1 is Seen ==> settled(s, q, o)[k] == s[k],
{
    lemma_index_of(s, p);
    let i = index_of(s, p);
    let st = if span_passed(m, now, threshold) {
        FileStatus::<T, E>::Claimed
    } else {
        FileStatus::<T, E>::Seen(m)
    };
    if i < 0 {
        lemma_index_of_push(s, (p, st), p);
    } else {
        lemma_keys_update(s, i, st);
    }
    lemma_index_of(s, q);
    assert forall|k: int| #![auto] 0 <= k < s.len() && s[k].1 is Seen implies settled(s, q, o)[k]
        == s[k] by {
        if is_claimed(s, q) {
            assert(k != index_of(s, q));
        }
    }
}

proof fn lemma_push_contains(ks: Seq<Seq<char>>, x: Seq<char>)
    ensures
        forall|q: Seq<char>| #[trigger] ks.push(x).contains(q) <==> (ks.contains(q) || q == x),
{
    assert forall|q: Seq<char>| #[trigger] ks.push(x).contains(q) <==> (ks.contains(q) || q == x) by {
        if ks.contains(q) {
            let k = choose|k: int| 0 <= k < ks.len() && ks[k] == q;
            assert(ks.push(x)[k] == q);
        }
        if q == x {
            assert(ks.push(x)[ks.len() as int] == x);
        }
        if ks.push(x).contains(q) {
            let k = choose|k: int| 0 <= k < ks.len() + 1 && ks.push(x)[k] == q;
            if k < ks.len() {
                assert(ks[k] == q);
            }
        }
    }
}

/// One observation or failed read of `p` keeps every tracked path, adds `p`,
/// and nothing else.
proof fn lemma_step_keys<T, E>(
    s: Table<T, E>,
    p: Seq<char>,
    m: u64,
    now: u64,
    threshold: u64,
    reason: String,
)
    ensures
        forall|q: Seq<char>|
            #[trigger] keys(observed(s, p, m, now, threshold)).contains(q) <==> (keys(s).contains(
                q,
            ) || q == p),
        forall|q: Seq<char>|
            #[trigger] keys(failed(s, p, reason)).contains(q) <==> (keys(s).contains(q) || q == p),
{
    lemma_position(keys(s), p);
    let i = index_of(s, p);
    let st = if span_passed(m, now, threshold) {
        FileStatus::<T, E>::Claimed
    } else {
        FileStatus::<T, E>::Seen(m)
    };
    if i < 0 {
        assert(keys(s.push((p, st))) =~= keys(s).push(p));
        assert(keys(s.push((p, FileStatus::Skipped(reason)))) =~= keys(s).push(p));
        lemma_push_contains(keys(s), p);
    } else {
        assert(keys(s)[i] == s[i].0);
        assert(keys(s).contains(p));
        lemma_keys_update(s, i, st);
        lemma_keys_update(s, i, FileStatus::<T, E>::Skipped(reason));
    }
}

/// Recording outcomes keeps the tracked paths.
proof fn lemma_settled_keys<T, E>(s: Table<T, E>, outs: Seq<(Seq<char>, Result<T, E>)>)
    ensures
        keys(settled_all(s, outs)) == keys(s),
    decreases outs.len(),
{
    if outs.len() > 0 {
        lemma_settled_keys(s, outs.drop_last());
        let t = settled_all(s, outs.drop_last());
        let p = outs.last().0;
        if is_claimed(t, p) {
            lemma_position(keys(t), p);
            assert(keys(t)[index_of(t, p)] == t[index_of(t, p)].0);
            lemma_keys_update(t, index_of(t, p), outcome_status(outs.last().1));
        }
    }
}

/// The tracked paths are exactly the paths ever observed: a tick adds each
/// path it scanned, whether its modification time could be read or not, and
/// drops none; recording outcomes changes no path. With the partition of the
/// report, every observed path ends in exactly one part of it.
pub proof fn lemma_tracked_paths<T, E>(
    s: Table<T, E>,
    scan: Seq<(Seq<char>, Result<u64, String>)>,
    now: u64,
    threshold: u64,
    outs: Seq<(Seq<char>, Result<T, E>)>,
)
    ensures
        forall|q: Seq<char>|
            #[trigger] keys(scanned(s, scan, now, threshold)).contains(q) <==> (keys(s).contains(q)
                || keys(scan).contains(q)),
        keys(settled_all(s, outs)) == keys(s),
    decreases scan.len(),
{
    lemma_settled_keys(s, outs);
    if scan.len() > 0 {
        let rest = scan.drop_last();
        lemma_tracked_paths(s, rest, now, threshold, outs);
        let t = scanned(s, rest, now, threshold);
        let (p, read) = scan.last();
        match read {
            Ok(m) => lemma_step_keys(t, p, m, now, threshold, arbitrary()),
            Err(reason) => lemma_step_keys(t, p, 0, now, threshold, reason),
        }
        assert(keys(scan) =~= keys(rest).push(p));
        lemma_push_contains(keys(rest), p);
    } else {
        assert(keys(scan) =~= Seq::<Seq<char>>::empty());
    }
}

/// Count of processed entries and length of the completed part agree.
proof fn lemma_count_completed<T, E>(s: Table<T, E>)
    ensures
        count_processed(s) == completed_of(s).len(),
    decreases s.len(),
{
    if s.len() > 0 {
        lemma_count_completed(s.drop_last());
    }
}

/// Stopping on a number of files found: the evaluator stops exactly on the
/// first tick whose success count reaches `n`, and where that count is the
/// number of processed paths, the report then completes at least `n` paths.
pub proof fn lemma_files_found<T, E>(
    s: Table<T, E>,
    n: usize,
    successes: usize,
    started: u64,
    newest: u64,
    now: u64,
)
    ensures
        stop_spec(StopCondition::FilesFound(n), successes, started, newest, now) <==> successes
            >= n,
        successes == count_processed(s) && stop_spec(
            StopCondition::FilesFound(n),
            successes,
            started,
            newest,
            now,
        ) ==> completed_of(s).len() >= n,
{
    lemma_count_completed(s);
}

/// Deferred outcomes: recording the outcome of a claimed path `p` commutes
/// with every other operation of the tracker, and no observation of `p`
/// disturbs it while it is claimed. So handing a matured path to a worker and
/// recording its outcome later leaves the same table as recording it at once:
/// the inline and the pooled dispatcher agree on every outcome.
pub proof fn lemma_deferred_outcome<T, E>(
    s: Table<T, E>,
    p: Seq<char>,
    o: Result<T, E>,
    q: Seq<char>,
    oq: Result<T, E>,
    m: u64,
    now: u64,
    threshold: u64,
    reason: String,
)
    requires
        distinct_keys(s),
        is_claimed(s, p),
    ensures
        observed(s, p, m, now, threshold) == s,
        failed(s, p, reason) == s,
        p != q ==> settled(observed(s, q, m, now, threshold), p, o) == observed(
            settled(s, p, o),
            q,
            m,
            now,
            threshold,
        ),
        p != q ==> settled(failed(s, q, reason), p, o) == failed(settled(s, p, o), q, reason),
        p != q ==> settled(settled(s, q, oq), p, o) == settled(settled(s, p, o), q, oq),
{
    lemma_index_of(s, p);
    lemma_index_of(s, q);
    let i = index_of(s, p);
    let j = index_of(s, q);
    let sp = settled(s, p, o);
    assert(sp == s.update(i, (s[i].0, outcome_status(o))));
    lemma_keys_update(s, i, outcome_status(o));
    lemma_keys_update(s, i, outcome_status(o));
    if p != q {
        let st = if span_passed(m, now, threshold) {
            FileStatus::<T, E>::Claimed
        } else {
            FileStatus::<T, E>::Seen(m)
        };
        // An observation of q.
        let a = observed(s, q, m, now, threshold);
        if j < 0 {
            lemma_index_of_push(s, (q, st), p);
            assert(settled(a, p, o) =~= observed(sp, q, m, now, threshold));
        } else {
            lemma_keys_update(s, j, st);
            if s[j].1 is Seen {
                assert(settled(a, p, o) =~= observed(sp, q, m, now, threshold));
            }
        }
        // A failed read of q.
        let f = failed(s, q, reason);
        if j < 0 {
            lemma_index_of_push(s, (q, FileStatus::Skipped(reason)), p);
            assert(settled(f, p, o) =~= failed(sp, q, reason));
        } else {
            lemma_keys_update(s, j, FileStatus::Skipped(reason));
            if s[j].1 is Seen {
                assert(settled(f, p, o) =~= failed(sp, q, reason));
            }
        }
        // An outcome of q.
        if is_claimed(s, q) {
            lemma_keys_update(s, j, outcome_status(oq));
            assert(settled(settled(s, q, oq), p, o) =~= settled(sp, q, oq));
        }
    }
}

} // verus!
