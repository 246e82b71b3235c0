//! The maturation tracker: the status of every path observed by a watch.
use vstd::prelude::*;

use crate::report::{
    completed_of, errored_of, keyed_view, pending_of, skipped_of, FileResults,
};
use crate::status::{
    distinct_keys, index_of, lemma_index_of, lemma_keys_update, FileStatus, Table,
};
use crate::stop::span_passed;

verus! {

/// Whether an observation of `p` refreshes it: the path is new, or only seen.
pub open spec fn refreshes<T, E>(s: Table<T, E>, p: Seq<char>) -> bool {
    index_of(s, p) < 0 || s[index_of(s, p)].1 is Seen
}

/// The table after a tick could not read the modification time of `p`: a new
/// or seen path becomes skipped, any other status stays.
pub open spec fn failed<T, E>(s: Table<T, E>, p: Seq<char>, reason: String) -> Table<T, E> {
    let i = index_of(s, p);
    if i < 0 {
        s.push((p, FileStatus::Skipped(reason)))
    } else if s[i].1 is Seen {
        s.update(i, (p, FileStatus::Skipped(reason)))
    } else {
        s
    }
}

/// The table after a tick read modification time `m` of `p` at instant `now`:
/// a new or seen path records `m`, or is claimed where `m` lies at least
/// `threshold` before `now`; any other status stays.
pub open spec fn observed<T, E>(
    s: Table<T, E>,
    p: Seq<char>,
    m: u64,
    now: u64,
    threshold: u64,
) -> Table<T, E> {
    let i = index_of(s, p);
    let st = if span_passed(m, now, threshold) {
        FileStatus::Claimed
    } else {
        FileStatus::Seen(m)
    };
    if i < 0 {
        s.push((p, st))
    } else if s[i].1 is Seen {
        s.update(i, (p, st))
    } else {
        s
    }
}

/// The status that an outcome of the processing function gives.
pub open spec fn outcome_status<T, E>(o: Result<T, E>) -> FileStatus<T, E> {
    match o {
        Ok(t) => FileStatus::Processed(t),
        Err(e) => FileStatus::Errored(e),
    }
}

/// Whether `p` is claimed in the table.
pub open spec fn is_claimed<T, E>(s: Table<T, E>, p: Seq<char>) -> bool {
    index_of(s, p) >= 0 && s[index_of(s, p)].1 is Claimed
}

/// The table after the outcome `o` of processing `p` is recorded: a claimed
/// path takes it, any other status stays.
pub open spec fn settled<T, E>(s: Table<T, E>, p: Seq<char>, o: Result<T, E>) -> Table<T, E> {
    if is_claimed(s, p) {
        s.update(index_of(s, p), (p, outcome_status(o)))
    } else {
        s
    }
}

/// The table after each outcome of `outs` is recorded, in order.
pub open spec fn settled_all<T, E>(s: Table<T, E>, outs: Seq<(Seq<char>, Result<T, E>)>) -> Table<
    T,
    E,
>
    decreases outs.len(),
{
    if outs.len() == 0 {
        s
    } else {
        settled(settled_all(s, outs.drop_last()), outs.last().0, outs.last().1)
    }
}

/// The table after a tick that scanned `scan`, in order: each path with the
/// modification time read for it, or the reason it could not be read.
pub open spec fn scanned<T, E>(
    s: Table<T, E>,
    scan: Seq<(Seq<char>, Result<u64, String>)>,
    now: u64,
    threshold: u64,
) -> Table<T, E>
    decreases scan.len(),
{
    if scan.len() == 0 {
        s
    } else {
        let t = scanned(s, scan.drop_last(), now, threshold);
        let (p, read) = scan.last();
        match read {
            Ok(m) => observed(t, p, m, now, threshold),
            Err(reason) => failed(t, p, reason),
        }
    }
}

/// The paths that matured during a tick that scanned `scan`, in order.
pub open spec fn matured_in<T, E>(
    s: Table<T, E>,
    scan: Seq<(Seq<char>, Result<u64, String>)>,
    now: u64,
    threshold: u64,
) -> Seq<Seq<char>>
    decreases scan.len(),
{
    if scan.len() == 0 {
        seq![]
    } else {
        let rest = matured_in(s, scan.drop_last(), now, threshold);
        let t = scanned(s, scan.drop_last(), now, threshold);
        let (p, read) = scan.last();
        match read {
            Ok(m) => if refreshes(t, p) && span_passed(m, now, threshold) {
                rest.push(p)
            } else {
                rest
            },
            Err(_) => rest,
        }
    }
}

/// The newest modification time after a tick that scanned `scan`, where it
/// was `newest` before: the largest of `newest` and each time read for a path
/// that the tick refreshed.
pub open spec fn newest_after<T, E>(
    s: Table<T, E>,
    newest: u64,
    scan: Seq<(Seq<char>, Result<u64, String>)>,
    now: u64,
    threshold: u64,
) -> u64
    decreases scan.len(),
{
    if scan.len() == 0 {
        newest
    } else {
        let n = newest_after(s, newest, scan.drop_last(), now, threshold);
        let t = scanned(s, scan.drop_last(), now, threshold);
        let (p, read) = scan.last();
        match read {
            Ok(m) => if refreshes(t, p) && m > n {
                m
            } else {
                n
            },
            Err(_) => n,
        }
    }
}

/// How many entries of the table are processed.
pub open spec fn count_processed<T, E>(s: Table<T, E>) -> nat
    decreases s.len(),
{
    if s.len() == 0 {
        0
    } else {
        count_processed(s.drop_last()) + if s.last().1 is Processed {
            1nat
        } else {
            0
        }
    }
}

/// The status of every path that a watch has observed, and the newest
/// modification time observed.
pub struct Tracker<T, E> {
    entries: Vec<(String, FileStatus<T, E>)>,
    newest: u64,
}

impl<T, E> View for Tracker<T, E> {
    type V = Table<T, E>;

    closed spec fn view(&self) -> Table<T, E> {
        keyed_view(self.entries@)
    }
}

impl<T, E> Tracker<T, E> {
    /// The newest modification time observed, or the instant the watch began
    /// where that is newer.
    pub closed spec fn newest_spec(&self) -> u64 {
        self.newest
    }

    /// No path is tracked twice.
    pub open spec fn wf(&self) -> bool {
        distinct_keys(self@)
    }

    /// An empty tracker for a watch that begins at wall-clock instant `now`.
    pub fn new(now: u64) -> (r: Self)
        ensures
            r.wf(),
            r@ == Seq::<(Seq<char>, FileStatus<T, E>)>::empty(),
            r.newest_spec() == now,
    {
        let r = Tracker { entries: Vec::new(), newest: now };
        assert(r@ =~= Seq::<(Seq<char>, FileStatus<T, E>)>::empty());
        r
    }

    /// The newest modification time observed, or the starting instant where
    /// that is newer.
    pub fn newest(&self) -> (r: u64)
        ensures
            r == self.newest_spec(),
    {
        self.newest
    }

    /// Where `p` is tracked.
    fn find(&self, p: &String) -> (r: Option<usize>)
        requires
            self.wf(),
        ensures
            r matches Some(i) ==> i as int == index_of(self@, p@) && i < self@.len(),
            r is None ==> index_of(self@, p@) < 0,
    {
        proof {
            lemma_index_of(self@, p@);
        }
        let mut j: usize = 0;
        while j < self.entries.len()
            invariant
                self.wf(),
                j <= self.entries.len(),
                self@.len() == self.entries@.len(),
                forall|k: int| 0 <= k < j ==> self@[k].0 != p@,
            decreases self.entries.len() - j,
        {
            if self.entries[j].0 == *p {
                proof {
                    lemma_index_of(self@, p@);
                    assert(self@[j as int].0 == p@);
                }
                return Some(j);
            }
            j += 1;
        }
        None
    }

    /// Records that a tick could not read the modification time of `path`.
    pub fn observe_failure(&mut self, path: String, reason: String)
        requires
            old(self).wf(),
        ensures
            final(self).wf(),
            final(self)@ == failed(old(self)@, path@, reason),
            final(self).newest_spec() == old(self).newest_spec(),
    {
        proof {
            lemma_index_of(self@, path@);
        }
        match self.find(&path) {
            None => {
                self.entries.push((path, FileStatus::Skipped(reason)));
                assert(self@ =~= failed(old(self)@, path@, reason));
            },
            Some(i) => {
                if matches!(self.entries[i].1, FileStatus::Seen(_)) {
                    proof {
                        lemma_keys_update(self@, i as int, FileStatus::Skipped(reason));
                    }
                    self.entries.set(i, (path, FileStatus::Skipped(reason)));
                    assert(self@ =~= failed(old(self)@, path@, reason));
                }
            },
        }
    }

    /// Records that a tick read modification time `modified` of `path` at
    /// wall-clock instant `now`. Returns whether the path matured: it is new
    /// or only seen, and `modified` lies at least `threshold` before `now`.
    /// A matured path is claimed; its outcome is recorded with `settle`.
    pub fn observe_modified(&mut self, path: String, modified: u64, now: u64, threshold: u64) -> (r:
        bool)
        requires
            old(self).wf(),
        ensures
            final(self).wf(),
            final(self)@ == observed(old(self)@, path@, modified, now, threshold),
            r == (refreshes(old(self)@, path@) && span_passed(modified, now, threshold)),
            final(self).newest_spec() == if refreshes(old(self)@, path@) && modified
                > old(self).newest_spec() {
                modified
            } else {
                old(self).newest_spec()
            },
    {
        proof {
            lemma_index_of(self@, path@);
        }
        let mature = modified <= now && now - modified >= threshold;
        let st = if mature {
            FileStatus::Claimed
        } else {
            FileStatus::Seen(modified)
        };
        match self.find(&path) {
            None => {
                self.entries.push((path, st));
                assert(self@ =~= observed(old(self)@, path@, modified, now, threshold));
            },
            Some(i) => {
                if matches!(self.entries[i].1, FileStatus::Seen(_)) {
                    proof {
                        lemma_keys_update(self@, i as int, st);
                    }
                    self.entries.set(i, (path, st));
                    assert(self@ =~= observed(old(self)@, path@, modified, now, threshold));
                } else {
                    return false;
                }
            },
        }
        if modified > self.newest {
            self.newest = modified;
        }
        mature
    }

    /// Runs the tracker's part of one tick: records each result of `scan` in
    /// order, at wall-clock instant `now`, and returns the paths that matured,
    /// which are now claimed.
    pub fn observe_all(
        &mut self,
        scan: Vec<(String, Result<u64, String>)>,
        now: u64,
        threshold: u64,
    ) -> (r: Vec<String>)
        requires
            old(self).wf(),
        ensures
            final(self).wf(),
            final(self)@ == scanned(old(self)@, keyed_view(scan@), now, threshold),
            r@.map_values(|p: String| p@) == matured_in(
                old(self)@,
                keyed_view(scan@),
                now,
                threshold,
            ),
            final(self).newest_spec() == newest_after(
                old(self)@,
                old(self).newest_spec(),
                keyed_view(scan@),
                now,
                threshold,
            ),
    {
        let ghost s = old(self)@;
        let ghost n0 = old(self).newest_spec();
        let ghost sc = keyed_view(scan@);
        let mut rest = scan;
        let mut matured: Vec<String> = Vec::new();
        let ghost mut k: int = 0;
        assert(sc.take(0) =~= Seq::<(Seq<char>, Result<u64, String>)>::empty());
        assert(matured@.map_values(|p: String| p@) =~= Seq::<Seq<char>>::empty());
        while rest.len() > 0
            invariant
                self.wf(),
                0 <= k <= sc.len(),
                keyed_view(rest@) == sc.subrange(k, sc.len() as int),
                self@ == scanned(s, sc.take(k), now, threshold),
                matured@.map_values(|p: String| p@) == matured_in(s, sc.take(k), now, threshold),
                self.newest_spec() == newest_after(s, n0, sc.take(k), now, threshold),
            decreases rest.len(),
        {
            let ghost before = rest@;
            let ghost mbefore = matured@;
            let (path, read) = rest.remove(0);
            assert(keyed_view(before).len() == before.len());
            assert(sc.subrange(k, sc.len() as int)[0] == sc[k]);
            assert(keyed_view(before)[0] == (before[0].0@, before[0].1));
            assert(sc.take(k + 1).drop_last() =~= sc.take(k));
            assert(sc.take(k + 1).last() == sc[k]);
            match read {
                Ok(m) => {
                    let kept = path.clone();
                    if self.observe_modified(path, m, now, threshold) {
                        matured.push(kept);
                        assert(matured@.map_values(|p: String| p@) =~= mbefore.map_values(
                            |p: String| p@,
                        ).push(sc[k].0));
                    }
                },
                Err(reason) => {
                    self.observe_failure(path, reason);
                },
            }
            assert(rest@ =~= before.subrange(1, before.len() as int));
            assert(keyed_view(rest@) =~= keyed_view(before).subrange(1, before.len() as int));
            assert(keyed_view(rest@) =~= sc.subrange(k + 1, sc.len() as int));
            proof {
                k = k + 1;
            }
        }
        assert(sc.take(k) =~= sc);
        matured
    }

    /// Records the outcome of processing `path`. Returns whether it was
    /// recorded: only a claimed path takes an outcome.
    pub fn settle(&mut self, path: &String, outcome: Result<T, E>) -> (r: bool)
        requires
            old(self).wf(),
        ensures
            final(self).wf(),
            final(self)@ == settled(old(self)@, path@, outcome),
            r == is_claimed(old(self)@, path@),
            final(self).newest_spec() == old(self).newest_spec(),
    {
        proof {
            lemma_index_of(self@, path@);
        }
        match self.find(path) {
            None => false,
            Some(i) => {
                if matches!(self.entries[i].1, FileStatus::Claimed) {
                    let st = match outcome {
                        Ok(t) => FileStatus::Processed(t),
                        Err(e) => FileStatus::Errored(e),
                    };
                    proof {
                        lemma_keys_update(self@, i as int, st);
                    }
                    self.entries.set(i, (path.clone(), st));
                    assert(self@ =~= settled(old(self)@, path@, outcome));
                    true
                } else {
                    false
                }
            },
        }
    }

    /// Records each outcome of `outcomes` in order, as `settle` does.
    pub fn settle_each(&mut self, outcomes: Vec<(String, Result<T, E>)>)
        requires
            old(self).wf(),
        ensures
            final(self).wf(),
            final(self)@ == settled_all(old(self)@, keyed_view(outcomes@)),
            final(self).newest_spec() == old(self).newest_spec(),
    {
        let ghost outs = keyed_view(outcomes@);
        let mut rest = outcomes;
        let ghost mut k: int = 0;
        assert(outs.take(0) =~= Seq::<(Seq<char>, Result<T, E>)>::empty());
        while rest.len() > 0
            invariant
                self.wf(),
                0 <= k <= outs.len(),
                keyed_view(rest@) == outs.subrange(k, outs.len() as int),
                self@ == settled_all(old(self)@, outs.take(k)),
                self.newest_spec() == old(self).newest_spec(),
            decreases rest.len(),
        {
            let ghost before = rest@;
            let (path, outcome) = rest.remove(0);
            assert(keyed_view(before).len() == before.len());
            assert(outs.subrange(k, outs.len() as int)[0] == outs[k]);
            assert(keyed_view(before)[0] == (before[0].0@, before[0].1));
            assert(outs.take(k + 1).drop_last() =~= outs.take(k));
            self.settle(&path, outcome);
            assert(rest@ =~= before.subrange(1, before.len() as int));
            assert(keyed_view(rest@) =~= keyed_view(before).subrange(1, before.len() as int));
            assert(keyed_view(rest@) =~= outs.subrange(k + 1, outs.len() as int));
            proof {
                k = k + 1;
            }
        }
        assert(outs.take(k) =~= outs);
    }

    /// How many tracked paths are processed.
    pub fn processed_count(&self) -> (r: usize)
        ensures
            r == count_processed(self@),
    {
        let mut n: usize = 0;
        let mut j: usize = 0;
        while j < self.entries.len()
            invariant
                j <= self.entries.len(),
                self@.len() == self.entries@.len(),
                n == count_processed(self@.take(j as int)),
                n <= j,
            decreases self.entries.len() - j,
        {
            assert(self@.take(j + 1).drop_last() =~= self@.take(j as int));
            if matches!(self.entries[j].1, FileStatus::Processed(_)) {
                n += 1;
            }
            j += 1;
        }
        assert(self@.take(j as int) =~= self@);
        n
    }

    /// Splits the tracked paths into the final report: processed paths are
    /// completed, errored ones errored, skipped ones skipped, and those seen
    /// or claimed are not processed. Each part keeps the order of first
    /// observation.
    pub fn into_results(self) -> (r: FileResults<T, E>)
        ensures
            r.completed_view() == completed_of(self@),
            r.errored_view() == errored_of(self@),
            r.skipped_view() == skipped_of(self@),
            r.not_processed_view() == pending_of(self@),
    {
        let ghost s = self@;
        let mut entries = self.entries;
        let mut r = FileResults {
            skipped: Vec::new(),
            not_processed: Vec::new(),
            completed: Vec::new(),
            errored: Vec::new(),
        };
        let ghost mut k: int = 0;
        assert(s.take(0) =~= Seq::<(Seq<char>, FileStatus<T, E>)>::empty());
        assert(r.completed_view() =~= completed_of(s.take(0)));
        assert(r.errored_view() =~= errored_of(s.take(0)));
        assert(r.skipped_view() =~= skipped_of(s.take(0)));
        assert(r.not_processed_view() =~= pending_of(s.take(0)));
        while entries.len() > 0
            invariant
                0 <= k <= s.len(),
                keyed_view(entries@) == s.subrange(k, s.len() as int),
                r.completed_view() == completed_of(s.take(k)),
                r.errored_view() == errored_of(s.take(k)),
                r.skipped_view() == skipped_of(s.take(k)),
                r.not_processed_view() == pending_of(s.take(k)),
            decreases entries.len(),
        {
            let ghost before = entries@;
            let (path, st) = entries.remove(0);
            assert(keyed_view(before).len() == before.len());
            assert(k < s.len());
            assert(s.subrange(k, s.len() as int)[0] == s[k]);
            assert(keyed_view(before)[0] == (before[0].0@, before[0].1));
            assert(path@ == s[k].0 && st == s[k].1);
            assert(s.take(k + 1).drop_last() =~= s.take(k));
            assert(s.take(k + 1).last() == s[k]);
            let ghost rc = r.completed@;
            let ghost re = r.errored@;
            let ghost rs = r.skipped@;
            let ghost rn = r.not_processed@;
            match st {
                FileStatus::Processed(t) => {
                    r.completed.push((path, t));
                    assert(r.completed_view() =~= keyed_view(rc).push((s[k].0, t)));
                },
                FileStatus::Errored(e) => {
                    r.errored.push((path, e));
                    assert(r.errored_view() =~= keyed_view(re).push((s[k].0, e)));
                },
                FileStatus::Skipped(why) => {
                    r.skipped.push((path, why));
                    assert(r.skipped_view() =~= keyed_view(rs).push((s[k].0, why)));
                },
                _ => {
                    r.not_processed.push(path);
                    assert(r.not_processed_view() =~= rn.map_values(|p: String| p@).push(s[k].0));
                },
            }
            assert(entries@ =~= before.subrange(1, before.len() as int));
            assert(keyed_view(entries@) =~= keyed_view(before).subrange(1, before.len() as int));
            assert(keyed_view(entries@) =~= s.subrange(k + 1, s.len() as int));
            proof {
                k = k + 1;
            }
        }
        assert(s.take(k) =~= s);
        r
    }
}

} // verus!
