//! An earlier shape of the work queue, without a close flag: the same
//! frequency map and completion set, popped by highest frequency among the
//! pieces a bitfield makes available.

use crate::worker::{
    lemma_map_view_at, lemma_map_view_contains, lemma_map_view_remove, lemma_map_view_update,
    map_view, spec_available, total_frequency, unique_keys,
};
use vstd::prelude::*;

verus! {

/// The work queue: frequency entries and the completion set.
pub struct PieceQueue {
    pub queue: Vec<(usize, usize)>,
    pub completed: Vec<usize>,
}

impl PieceQueue {
    /// The queue read as a map from piece index to frequency.
    pub open spec fn freq_map(self) -> Map<usize, usize> {
        map_view(self.queue@)
    }

    /// The stored frequency of `k`, zero when absent.
    pub open spec fn freq_or_zero(self, k: usize) -> int {
        if self.freq_map().dom().contains(k) {
            self.freq_map()[k] as int
        } else {
            0
        }
    }

    /// The sum of all stored frequencies.
    pub open spec fn total(self) -> int {
        total_frequency(self.queue@)
    }

    /// Whether `k` has been marked complete.
    pub open spec fn is_completed(self, k: usize) -> bool {
        self.completed@.contains(k)
    }

    /// Structural invariant: no duplicate piece index in either list.
    pub open spec fn wf(self) -> bool {
        &&& unique_keys(self.queue@)
        &&& forall|i: int, j: int|
            0 <= i < j < self.completed@.len() ==> self.completed@[i] != self.completed@[j]
    }

    /// An empty queue.
    pub fn new() -> (r: PieceQueue)
        ensures
            r.wf(),
            r.queue@.len() == 0,
            r.completed@.len() == 0,
            r.freq_map() == Map::<usize, usize>::empty(),
            r.total() == 0,
    {
        PieceQueue { queue: Vec::new(), completed: Vec::new() }
    }

    /// Adds `frequency` to the count of `item`, creating the entry if it is
    /// absent; the counter saturates at `usize::MAX`. A push of a completed
    /// piece is silently dropped.
    #[verifier::loop_isolation(false)]
    pub fn push(&mut self, item: usize, frequency: usize)
        requires
            old(self).wf(),
        ensures
            final(self).wf(),
            final(self).completed@ == old(self).completed@,
            old(self).is_completed(item) ==> final(self).queue@ == old(self).queue@,
            !old(self).is_completed(item) ==> {
                let prev = old(self).freq_or_zero(item);
                let next = if prev + frequency <= usize::MAX {
                    prev + frequency
                } else {
                    usize::MAX as int
                };
                &&& final(self).freq_map() == old(self).freq_map().insert(item, next as usize)
                &&& final(self).total() == old(self).total() + next - prev
            },
    {
        let mut ci: usize = 0;
        while ci < self.completed.len()
            invariant
                ci <= self.completed@.len(),
                forall|j: int| 0 <= j < ci ==> self.completed@[j] != item,
                *self == *old(self),
            decreases self.completed@.len() - ci,
        {
            if self.completed[ci] == item {
                return ;
            }
            ci = ci + 1;
        }
        let mut i: usize = 0;
        while i < self.queue.len()
            invariant
                i <= self.queue@.len(),
                forall|j: int| 0 <= j < i ==> (#[trigger] self.queue@[j]).0 != item,
                *self == *old(self),
            decreases self.queue@.len() - i,
        {
            if self.queue[i].0 == item {
                let cur: usize = self.queue[i].1;
                let next: usize = if frequency > usize::MAX - cur {
                    usize::MAX
                } else {
                    cur + frequency
                };
                proof {
                    lemma_map_view_at(self.queue@, i as int);
                    lemma_map_view_update(self.queue@, i as int, next);
                }
                self.queue.set(i, (item, next));
                return ;
            }
            i = i + 1;
        }
        proof {
            lemma_map_view_contains(self.queue@, item);
        }
        let ghost prev_entries = self.queue@;
        self.queue.push((item, frequency));
        proof {
            assert(self.queue@.drop_last() =~= prev_entries);
            assert(unique_keys(self.queue@)) by {
                assert(forall|j: int|
                    0 <= j < prev_entries.len() ==> (#[trigger] self.queue@[j]) == prev_entries[j]);
            }
        }
    }

    /// Marks `item` complete; returns whether it was newly inserted.
    #[verifier::loop_isolation(false)]
    pub fn complete(&mut self, item: usize) -> (r: bool)
        requires
            old(self).wf(),
        ensures
            final(self).wf(),
            final(self).queue@ == old(self).queue@,
            r == !old(self).is_completed(item),
            final(self).is_completed(item),
            r ==> final(self).completed@ == old(self).completed@.push(item),
            !r ==> final(self).completed@ == old(self).completed@,
            forall|k: usize|
                #[trigger] final(self).is_completed(k) <==> old(self).is_completed(k) || k == item,
    {
        let mut ci: usize = 0;
        while ci < self.completed.len()
            invariant
                ci <= self.completed@.len(),
                forall|j: int| 0 <= j < ci ==> self.completed@[j] != item,
                *self == *old(self),
            decreases self.completed@.len() - ci,
        {
            if self.completed[ci] == item {
                assert(self.is_completed(item));
                return false;
            }
            ci = ci + 1;
        }
        let ghost prev = self.completed@;
        self.completed.push(item);
        proof {
            assert(forall|j: int| 0 <= j < prev.len() ==> (#[trigger] self.completed@[j]) == prev[j]);
            assert(self.completed@[prev.len() as int] == item);
            assert forall|k: usize| #[trigger]
                self.is_completed(k) <==> prev.contains(k) || k == item by {
                if self.is_completed(k) {
                    let j = choose|j: int| 0 <= j < self.completed@.len() && self.completed@[j] == k;
                    if j < prev.len() {
                        assert(prev[j] == k);
                    }
                }
                if prev.contains(k) {
                    let j = choose|j: int| 0 <= j < prev.len() && prev[j] == k;
                    assert(self.completed@[j] == k);
                }
                if k == item {
                    assert(self.completed@[prev.len() as int] == k);
                }
            }
        }
        true
    }

    /// Removes and returns the entry with the highest frequency among those
    /// the bitfield makes available, or `None` when no entry is available.
    /// The surrounding program blocks on `None` and re-evaluates after the
    /// next push or complete.
    #[verifier::loop_isolation(false)]
    pub fn pop(&mut self, bitfield: &Vec<bool>) -> (r: Option<(usize, usize)>)
        requires
            old(self).wf(),
        ensures
            final(self).wf(),
            final(self).completed@ == old(self).completed@,
            match r {
                Some(entry) => {
                    &&& spec_available(entry.0, bitfield@)
                    &&& old(self).freq_map().dom().contains(entry.0)
                    &&& old(self).freq_map()[entry.0] == entry.1
                    &&& final(self).freq_map() == old(self).freq_map().remove(entry.0)
                    &&& final(self).total() == old(self).total() - entry.1
                    &&& forall|k: usize|
                        #[trigger] old(self).freq_map().dom().contains(k) && spec_available(
                            k,
                            bitfield@,
                        ) ==> old(self).freq_map()[k] <= entry.1
                },
                None => final(self).queue@ == old(self).queue@ && (forall|k: usize|
                    #[trigger] old(self).freq_map().dom().contains(k) ==> !spec_available(
                        k,
                        bitfield@,
                    )),
            },
    {
        let mut best: Option<usize> = None;
        let mut i: usize = 0;
        while i < self.queue.len()
            invariant
                i <= self.queue@.len(),
                *self == *old(self),
                match best {
                    Some(b) => {
                        &&& b < i
                        &&& spec_available(self.queue@[b as int].0, bitfield@)
                        &&& forall|j: int|
                            0 <= j < i && spec_available((#[trigger] self.queue@[j]).0, bitfield@)
                                ==> self.queue@[j].1 <= self.queue@[b as int].1
                    },
                    None => forall|j: int|
                        0 <= j < i ==> !spec_available((#[trigger] self.queue@[j]).0, bitfield@),
                },
            decreases self.queue@.len() - i,
        {
            let k: usize = self.queue[i].0;
            if k < bitfield.len() && bitfield[k] {
                match best {
                    None => {
                        best = Some(i);
                    },
                    Some(b) => {
                        if self.queue[i].1 > self.queue[b].1 {
                            best = Some(i);
                        }
                    },
                }
            }
            i = i + 1;
        }
        match best {
            Some(b) => {
                proof {
                    lemma_map_view_at(self.queue@, b as int);
                    lemma_map_view_remove(self.queue@, b as int);
                }
                let entry = self.queue.remove(b);
                proof {
                    assert forall|k: usize|
                        #[trigger] old(self).freq_map().dom().contains(k) && spec_available(
                            k,
                            bitfield@,
                        ) implies old(self).freq_map()[k] <= entry.1 by {
                        lemma_map_view_contains(old(self).queue@, k);
                        let j = choose|j: int|
                            0 <= j < old(self).queue@.len() && (#[trigger] old(self).queue@[j]).0
                                == k;
                        lemma_map_view_at(old(self).queue@, j);
                    }
                }
                Some(entry)
            },
            None => {
                proof {
                    assert forall|k: usize| #[trigger]
                        old(self).freq_map().dom().contains(k) implies !spec_available(
                        k,
                        bitfield@,
                    ) by {
                        lemma_map_view_contains(old(self).queue@, k);
                        let j = choose|j: int|
                            0 <= j < old(self).queue@.len() && (#[trigger] old(self).queue@[j]).0
                                == k;
                    }
                }
                None
            },
        }
    }
}

} // verus!
