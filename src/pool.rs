//! The shared parts of the pooled dispatcher: the queue of matured paths that
//! workers take from, and the maps that workers record outcomes into.
use std::collections::VecDeque;
use vstd::prelude::*;

use crate::report::keyed_view;
use crate::status::{distinct_keys, index_of, lemma_index_of, lemma_keys_update};

verus! {

/// What a worker gets when it asks the queue for work.
#[derive(Debug, PartialEq, Eq)]
pub enum Poll {
    /// A path to process.
    Item(String),
    /// Nothing queued yet, but more may come: wait and ask again.
    Idle,
    /// The queue is closed and drained: the worker ends.
    Done,
}

/// The queue of matured paths waiting for a worker. It is open while the
/// watch runs; once closed it takes no more paths, but what it holds is still
/// handed out.
pub struct WorkQueue {
    items: VecDeque<String>,
    open: bool,
}

impl WorkQueue {
    /// The queued paths, oldest first.
    pub closed spec fn pending(&self) -> Seq<Seq<char>> {
        self.items@.map_values(|p: String| p@)
    }

    /// Whether the queue still takes paths.
    pub closed spec fn is_open_spec(&self) -> bool {
        self.open
    }

    /// An open, empty queue.
    pub fn new() -> (r: Self)
        ensures
            r.is_open_spec(),
            r.pending() == Seq::<Seq<char>>::empty(),
    {
        let r = WorkQueue { items: VecDeque::new(), open: true };
        assert(r.pending() =~= Seq::<Seq<char>>::empty());
        r
    }

    /// Whether the queue still takes paths.
    pub fn is_open(&self) -> (r: bool)
        ensures
            r == self.is_open_spec(),
    {
        self.open
    }

    /// Appends `path` where the queue is open; returns whether it did.
    pub fn push(&mut self, path: String) -> (r: bool)
        ensures
            r == old(self).is_open_spec(),
            final(self).is_open_spec() == old(self).is_open_spec(),
            final(self).pending() == if r {
                old(self).pending().push(path@)
            } else {
                old(self).pending()
            },
    {
        if self.open {
            let ghost before = self.items@;
            self.items.push_back(path);
            assert(self.pending() =~= before.map_values(|p: String| p@).push(path@));
            true
        } else {
            false
        }
    }

    /// Hands out the oldest queued path, whether the queue is open or not.
    /// An empty queue answers `Idle` while open and `Done` once closed.
    pub fn pop(&mut self) -> (r: Poll)
        ensures
            final(self).is_open_spec() == old(self).is_open_spec(),
            old(self).pending().len() > 0 ==> (r matches Poll::Item(p) && p@ == old(
                self,
            ).pending()[0] && final(self).pending() == old(self).pending().drop_first()),
            old(self).pending().len() == 0 ==> final(self).pending() == old(self).pending() && (
            if old(self).is_open_spec() {
                r is Idle
            } else {
                r is Done
            }),
    {
        let ghost before = self.items@;
        match self.items.pop_front() {
            Some(p) => {
                assert(self.pending() =~= before.map_values(|p: String| p@).drop_first());
                Poll::Item(p)
            },
            None => {
                if self.open {
                    Poll::Idle
                } else {
                    Poll::Done
                }
            },
        }
    }

    /// Closes the queue: it takes no more paths, and keeps what it holds.
    pub fn close(&mut self)
        ensures
            !final(self).is_open_spec(),
            final(self).pending() == old(self).pending(),
    {
        self.open = false;
    }
}

/// A map from path to the outcome a worker recorded for it.
pub struct Outcomes<V> {
    entries: Vec<(String, V)>,
}

impl<V> View for Outcomes<V> {
    type V = Seq<(Seq<char>, V)>;

    closed spec fn view(&self) -> Seq<(Seq<char>, V)> {
        keyed_view(self.entries@)
    }
}

impl<V> Outcomes<V> {
    /// No path is recorded twice.
    pub open spec fn wf(&self) -> bool {
        distinct_keys(self@)
    }

    /// An empty map.
    pub fn new() -> (r: Self)
        ensures
            r.wf(),
            r@ == Seq::<(Seq<char>, V)>::empty(),
    {
        let r = Outcomes { entries: Vec::new() };
        assert(r@ =~= Seq::<(Seq<char>, V)>::empty());
        r
    }

    /// How many paths are recorded.
    pub fn len(&self) -> (r: usize)
        ensures
            r == self@.len(),
    {
        self.entries.len()
    }

    /// Records `value` for `path`, replacing what was recorded for it before.
    pub fn insert(&mut self, path: String, value: V)
        requires
            old(self).wf(),
        ensures
            final(self).wf(),
            final(self)@ == if index_of(old(self)@, path@) < 0 {
                old(self)@.push((path@, value))
            } else {
                old(self)@.update(index_of(old(self)@, path@), (path@, value))
            },
    {
        proof {
            lemma_index_of(self@, path@);
        }
        let mut j: usize = 0;
        while j < self.entries.len()
            invariant
                self.wf(),
                self@ == old(self)@,
                j <= self.entries.len(),
                self@.len() == self.entries@.len(),
                forall|k: int| 0 <= k < j ==> self@[k].0 != path@,
            decreases self.entries.len() - j,
        {
            if self.entries[j].0 == path {
                proof {
                    lemma_index_of(self@, path@);
                    assert(self@[j as int].0 == path@);
                    lemma_keys_update(self@, j as int, value);
                }
                self.entries.set(j, (path, value));
                assert(self@ =~= old(self)@.update(j as int, (path@, value)));
                return;
            }
            j += 1;
        }
        proof {
            lemma_index_of(self@, path@);
        }
        self.entries.push((path, value));
        assert(self@ =~= old(self)@.push((path@, value)));
    }

    /// The recorded paths with their values, in order of first record.
    pub fn into_vec(self) -> (r: Vec<(String, V)>)
        ensures
            keyed_view(r@) == self@,
    {
        self.entries
    }
}

} // verus!
