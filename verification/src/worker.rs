//! The shared work queue: a mapping from piece index to an accumulated
//! frequency counter, a completion set, and a close flag. Sessions pop the
//! highest-frequency piece their peer can serve, push back what they release,
//! and the coordinator marks pieces complete. The surrounding program guards
//! one queue value with its lock; every operation here is a single step
//! between lock acquisition and release.

use vstd::prelude::*;

verus! {

/// The association list read as a map from piece index to frequency.
pub open spec fn map_view(entries: Seq<(usize, usize)>) -> Map<usize, usize>
    decreases entries.len(),
{
    if entries.len() == 0 {
        Map::empty()
    } else {
        map_view(entries.drop_last()).insert(entries.last().0, entries.last().1)
    }
}

/// No piece index occurs twice.
pub open spec fn unique_keys(entries: Seq<(usize, usize)>) -> bool {
    forall|i: int, j: int|
        0 <= i < j < entries.len() ==> (#[trigger] entries[i]).0 != (#[trigger] entries[j]).0
}

/// The sum of the stored frequencies.
pub open spec fn total_frequency(entries: Seq<(usize, usize)>) -> int
    decreases entries.len(),
{
    if entries.len() == 0 {
        0
    } else {
        total_frequency(entries.drop_last()) + entries.last().1
    }
}

/// Whether a session whose peer advertises `bitfield` may take piece
/// `piece`: the peer's bitfield has that bit set.
pub open spec fn spec_available(piece: usize, bitfield: Seq<bool>) -> bool {
    piece < bitfield.len() && bitfield[piece as int]
}

/// A key is in the map view exactly when some entry carries it.
pub(crate) proof fn lemma_map_view_contains(entries: Seq<(usize, usize)>, k: usize)
    ensures
        map_view(entries).dom().contains(k) <==> exists|i: int|
            0 <= i < entries.len() && (#[trigger] entries[i]).0 == k,
    decreases entries.len(),
{
    if entries.len() > 0 {
        lemma_map_view_contains(entries.drop_last(), k);
        if map_view(entries).dom().contains(k) {
            if entries.last().0 != k {
                let i = choose|i: int|
                    0 <= i < entries.drop_last().len() && (#[trigger] entries.drop_last()[i]).0
                        == k;
                assert(entries[i].0 == k);
            } else {
                assert(entries[entries.len() - 1].0 == k);
            }
        }
        if exists|i: int| 0 <= i < entries.len() && (#[trigger] entries[i]).0 == k {
            let i = choose|i: int| 0 <= i < entries.len() && (#[trigger] entries[i]).0 == k;
            if i < entries.len() - 1 {
                assert(entries.drop_last()[i].0 == k);
            }
        }
    }
}

/// Under unique keys, entry `i` is what the map view stores for its key.
pub(crate) proof fn lemma_map_view_at(entries: Seq<(usize, usize)>, i: int)
    requires
        unique_keys(entries),
        0 <= i < entries.len(),
    ensures
        map_view(entries).dom().contains(entries[i].0),
        map_view(entries)[entries[i].0] == entries[i].1,
    decreases entries.len(),
{
    if i == entries.len() - 1 {
    } else {
        assert(unique_keys(entries.drop_last()));
        assert(entries.drop_last()[i] == entries[i]);
        lemma_map_view_at(entries.drop_last(), i);
        assert(entries[i].0 != entries.last().0);
    }
}

/// Updating the frequency of entry `i` inserts over its key in the map view.
pub(crate) proof fn lemma_map_view_update(entries: Seq<(usize, usize)>, i: int, f: usize)
    requires
        unique_keys(entries),
        0 <= i < entries.len(),
    ensures
        unique_keys(entries.update(i, (entries[i].0, f))),
        map_view(entries.update(i, (entries[i].0, f))) == map_view(entries).insert(
            entries[i].0,
            f,
        ),
        total_frequency(entries.update(i, (entries[i].0, f))) == total_frequency(entries)
            - entries[i].1 + f,
    decreases entries.len(),
{
    let k = entries[i].0;
    let e2 = entries.update(i, (k, f));
    assert(unique_keys(e2));
    if i == entries.len() - 1 {
        assert(e2.drop_last() =~= entries.drop_last());
        assert(map_view(e2) =~= map_view(entries).insert(k, f));
    } else {
        assert(unique_keys(entries.drop_last()));
        assert(entries.drop_last()[i] == entries[i]);
        lemma_map_view_update(entries.drop_last(), i, f);
        assert(e2.drop_last() =~= entries.drop_last().update(i, (k, f)));
        assert(e2.last() == entries.last());
        assert(k != entries.last().0);
        assert(map_view(e2) =~= map_view(entries).insert(k, f));
    }
}

/// Removing entry `i` removes its key from the map view and its frequency
/// from the total.
pub(crate) proof fn lemma_map_view_remove(entries: Seq<(usize, usize)>, i: int)
    requires
        unique_keys(entries),
        0 <= i < entries.len(),
    ensures
        unique_keys(entries.remove(i)),
        map_view(entries.remove(i)) == map_view(entries).remove(entries[i].0),
        total_frequency(entries.remove(i)) == total_frequency(entries) - entries[i].1,
    decreases entries.len(),
{
    let k = entries[i].0;
    let e2 = entries.remove(i);
    assert(unique_keys(e2)) by {
        assert(forall|a: int| 0 <= a < i ==> e2[a] == entries[a]);
        assert(forall|a: int| i <= a < e2.len() ==> e2[a] == entries[a + 1]);
    }
    if i == entries.len() - 1 {
        assert(e2 =~= entries.drop_last());
        assert(!map_view(entries.drop_last()).dom().contains(k)) by {
            lemma_map_view_contains(entries.drop_last(), k);
            if exists|j: int|
                0 <= j < entries.drop_last().len() && (#[trigger] entries.drop_last()[j]).0 == k {
                let j = choose|j: int|
                    0 <= j < entries.drop_last().len() && (#[trigger] entries.drop_last()[j]).0
                        == k;
                assert(entries[j].0 == entries[i].0);
            }
        }
        assert(map_view(e2) =~= map_view(entries).remove(k));
    } else {
        assert(unique_keys(entries.drop_last()));
        assert(entries.drop_last()[i] == entries[i]);
        lemma_map_view_remove(entries.drop_last(), i);
        assert(e2.drop_last() =~= entries.drop_last().remove(i));
        assert(e2.last() == entries.last());
        assert(k != entries.last().0);
        assert(map_view(e2) =~= map_view(entries).remove(k));
    }
}

/// The shared work queue: the frequency entries, the completion set, and the
/// close flag.
pub struct PieceQueue {
    pub queue: Vec<(usize, usize)>,
    pub completed: Vec<usize>,
    pub finished: bool,
}

impl PieceQueue {
    /// The queue read as a map from piece index to frequency.
    pub open spec fn freq_map(self) -> Map<usize, usize> {
        map_view(self.queue@)
    }

    /// The stored frequency of `k`, zero when absent.
    pub open spec fn freq_or_zero(self, k: usize) -> int {
        if self.freq_map().dom().contains(k) {
            self.freq_map()[k] as int
        } else {
            0
        }
    }

    /// The sum of all stored frequencies.
    pub open spec fn total(self) -> int {
        total_frequency(self.queue@)
    }

    /// Whether `k` has been marked complete.
    pub open spec fn is_completed(self, k: usize) -> bool {
        self.completed@.contains(k)
    }

    /// Structural invariant: no duplicate piece index in either list.
    pub open spec fn wf(self) -> bool {
        &&& unique_keys(self.queue@)
        &&& forall|i: int, j: int|
            0 <= i < j < self.completed@.len() ==> self.completed@[i] != self.completed@[j]
    }

    /// An empty, open queue.
    pub fn new() -> (r: PieceQueue)
        ensures
            r.wf(),
            r.queue@.len() == 0,
            r.completed@.len() == 0,
            !r.finished,
            r.freq_map() == Map::<usize, usize>::empty(),
            r.total() == 0,
    {
        PieceQueue { queue: Vec::new(), completed: Vec::new(), finished: false }
    }

    /// Adds `frequency` to the count of `item`, creating the entry if it is
    /// absent; the counter saturates at `usize::MAX`. A push of a completed
    /// piece is silently dropped.
    #[verifier::loop_isolation(false)]
    pub fn push(&mut self, item: usize, frequency: usize)
        requires
            old(self).wf(),
        ensures
            final(self).wf(),
            final(self).finished == old(self).finished,
            final(self).completed@ == old(self).completed@,
            old(self).is_completed(item) ==> final(self).queue@ == old(self).queue@,
            !old(self).is_completed(item) ==> {
                let prev = old(self).freq_or_zero(item);
                let next = if prev + frequency <= usize::MAX {
                    prev + frequency
                } else {
                    usize::MAX as int
                };
                &&& final(self).freq_map() == old(self).freq_map().insert(item, next as usize)
                &&& final(self).total() == old(self).total() + next - prev
            },
    {
        let mut ci: usize = 0;
        while ci < self.completed.len()
            invariant
                ci <= self.completed@.len(),
                forall|j: int| 0 <= j < ci ==> self.completed@[j] != item,
                *self == *old(self),
            decreases self.completed@.len() - ci,
        {
            if self.completed[ci] == item {
                return ;
            }
            ci = ci + 1;
        }
        assert(!self.is_completed(item));
        let mut i: usize = 0;
        while i < self.queue.len()
            invariant
                i <= self.queue@.len(),
                forall|j: int| 0 <= j < i ==> (#[trigger] self.queue@[j]).0 != item,
                *self == *old(self),
                !old(self).is_completed(item),
            decreases self.queue@.len() - i,
        {
            if self.queue[i].0 == item {
                let cur: usize = self.queue[i].1;
                let next: usize = if frequency > usize::MAX - cur {
                    usize::MAX
                } else {
                    cur + frequency
                };
                proof {
                    lemma_map_view_at(self.queue@, i as int);
                    lemma_map_view_update(self.queue@, i as int, next);
                }
                self.queue.set(i, (item, next));
                return ;
            }
            i = i + 1;
        }
        proof {
            lemma_map_view_contains(self.queue@, item);
            assert(!self.freq_map().dom().contains(item));
        }
        let ghost prev_entries = self.queue@;
        self.queue.push((item, frequency));
        proof {
            assert(self.queue@.drop_last() =~= prev_entries);
            assert(unique_keys(self.queue@)) by {
                assert(forall|j: int|
                    0 <= j < prev_entries.len() ==> (#[trigger] self.queue@[j]) == prev_entries[j]);
            }
        }
    }

    /// Marks `item` complete; returns whether it was newly inserted.
    #[verifier::loop_isolation(false)]
    pub fn complete(&mut self, item: usize) -> (r: bool)
        requires
            old(self).wf(),
        ensures
            final(self).wf(),
            final(self).queue@ == old(self).queue@,
            final(self).finished == old(self).finished,
            r == !old(self).is_completed(item),
            final(self).is_completed(item),
            r ==> final(self).completed@ == old(self).completed@.push(item),
            !r ==> final(self).completed@ == old(self).completed@,
            forall|k: usize|
                #[trigger] final(self).is_completed(k) <==> old(self).is_completed(k) || k == item,
    {
        let mut ci: usize = 0;
        while ci < self.completed.len()
            invariant
                ci <= self.completed@.len(),
                forall|j: int| 0 <= j < ci ==> self.completed@[j] != item,
                *self == *old(self),
            decreases self.completed@.len() - ci,
        {
            if self.completed[ci] == item {
                assert(self.is_completed(item));
                return false;
            }
            ci = ci + 1;
        }
        let ghost prev = self.completed@;
        self.completed.push(item);
        proof {
            assert(forall|j: int| 0 <= j < prev.len() ==> (#[trigger] self.completed@[j]) == prev[j]);
            assert(self.completed@[prev.len() as int] == item);
            assert forall|k: usize| #[trigger]
                self.is_completed(k) <==> prev.contains(k) || k == item by {
                if self.is_completed(k) {
                    let j = choose|j: int| 0 <= j < self.completed@.len() && self.completed@[j] == k;
                    if j < prev.len() {
                        assert(prev[j] == k);
                    }
                }
                if prev.contains(k) {
                    let j = choose|j: int| 0 <= j < prev.len() && prev[j] == k;
                    assert(self.completed@[j] == k);
                }
                if k == item {
                    assert(self.completed@[prev.len() as int] == k);
                }
            }
        }
        true
    }

    /// Sets the close flag; a closed queue serves no further pops.
    pub fn close(&mut self)
        ensures
            final(self).queue@ == old(self).queue@,
            final(self).completed@ == old(self).completed@,
            final(self).finished,
            old(self).wf() ==> final(self).wf(),
    {
        self.finished = true;
    }

    /// Removes and returns the entry with the highest frequency among those
    /// the bitfield makes available, or `None` when the queue is closed or no
    /// entry is available. The surrounding program blocks on `None` of an
    /// open queue and re-evaluates after the next push, complete, or close.
    #[verifier::loop_isolation(false)]
    pub fn pop(&mut self, bitfield: &Vec<bool>) -> (r: Option<(usize, usize)>)
        requires
            old(self).wf(),
        ensures
            final(self).wf(),
            final(self).completed@ == old(self).completed@,
            final(self).finished == old(self).finished,
            old(self).finished ==> r is None && final(self).queue@ == old(self).queue@,
            !old(self).finished && r is None ==> final(self).queue@ == old(self).queue@
                && (forall|k: usize|
                #[trigger] old(self).freq_map().dom().contains(k) ==> !spec_available(
                    k,
                    bitfield@,
                )),
            match r {
                Some(entry) => {
                    &&& spec_available(entry.0, bitfield@)
                    &&& old(self).freq_map().dom().contains(entry.0)
                    &&& old(self).freq_map()[entry.0] == entry.1
                    &&& final(self).freq_map() == old(self).freq_map().remove(entry.0)
                    &&& final(self).total() == old(self).total() - entry.1
                    &&& forall|k: usize|
                        #[trigger] old(self).freq_map().dom().contains(k) && spec_available(
                            k,
                            bitfield@,
                        ) ==> old(self).freq_map()[k] <= entry.1
                },
                None => true,
            },
    {
        if self.finished {
            return None;
        }
        let mut best: Option<usize> = None;
        let mut i: usize = 0;
        while i < self.queue.len()
            invariant
                i <= self.queue@.len(),
                *self == *old(self),
                match best {
                    Some(b) => {
                        &&& b < i
                        &&& spec_available(self.queue@[b as int].0, bitfield@)
                        &&& forall|j: int|
                            0 <= j < i && spec_available((#[trigger] self.queue@[j]).0, bitfield@)
                                ==> self.queue@[j].1 <= self.queue@[b as int].1
                    },
                    None => forall|j: int|
                        0 <= j < i ==> !spec_available((#[trigger] self.queue@[j]).0, bitfield@),
                },
            decreases self.queue@.len() - i,
        {
            let k: usize = self.queue[i].0;
            if k < bitfield.len() && bitfield[k] {
                match best {
                    None => {
                        best = Some(i);
                    },
                    Some(b) => {
                        if self.queue[i].1 > self.queue[b].1 {
                            best = Some(i);
                        }
                    },
                }
            }
            i = i + 1;
        }
        match best {
            Some(b) => {
                proof {
                    lemma_map_view_at(self.queue@, b as int);
                    lemma_map_view_remove(self.queue@, b as int);
                }
                let entry = self.queue.remove(b);
                proof {
                    assert forall|k: usize|
                        #[trigger] old(self).freq_map().dom().contains(k) && spec_available(
                            k,
                            bitfield@,
                        ) implies old(self).freq_map()[k] <= entry.1 by {
                        lemma_map_view_contains(old(self).queue@, k);
                        let j = choose|j: int|
                            0 <= j < old(self).queue@.len() && (#[trigger] old(self).queue@[j]).0
                                == k;
                        lemma_map_view_at(old(self).queue@, j);
                    }
                }
                Some(entry)
            },
            None => {
                proof {
                    assert forall|k: usize| #[trigger]
                        old(self).freq_map().dom().contains(k) implies !spec_available(
                        k,
                        bitfield@,
                    ) by {
                        lemma_map_view_contains(old(self).queue@, k);
                        let j = choose|j: int|
                            0 <= j < old(self).queue@.len() && (#[trigger] old(self).queue@[j]).0
                                == k;
                    }
                }
                None
            },
        }
    }

    /// The stored frequency of `item`, or `None` when it has no entry.
    #[verifier::loop_isolation(false)]
    pub fn frequency_of(&self, item: usize) -> (r: Option<usize>)
        requires
            self.wf(),
        ensures
            match r {
                Some(f) => self.freq_map().dom().contains(item) && self.freq_map()[item] == f,
                None => !self.freq_map().dom().contains(item),
            },
    {
        let mut i: usize = 0;
        while i < self.queue.len()
            invariant
                i <= self.queue@.len(),
                forall|j: int| 0 <= j < i ==> (#[trigger] self.queue@[j]).0 != item,
            decreases self.queue@.len() - i,
        {
            if self.queue[i].0 == item {
                proof {
                    lemma_map_view_at(self.queue@, i as int);
                }
                return Some(self.queue[i].1);
            }
            i = i + 1;
        }
        proof {
            lemma_map_view_contains(self.queue@, item);
        }
        None
    }
}

/// The sum of a sequence of integers.
pub open spec fn int_sum(s: Seq<int>) -> int
    decreases s.len(),
{
    if s.len() == 0 {
        0
    } else {
        int_sum(s.drop_last()) + s.last()
    }
}

/// Frequency conservation: over any run of queue operations, the stored
/// total moves by exactly the frequencies pushed minus the frequencies
/// popped. `totals[i]` is the queue's total before step `i`; the premise on
/// each step is what `push` and `pop` ensure of `total()` — a push of a
/// not-completed, not-saturating piece adds its frequency and pops nothing,
/// a pop subtracts the returned frequency and pushes nothing.
pub proof fn lemma_frequency_conservation(totals: Seq<int>, pushed: Seq<int>, popped: Seq<int>)
    requires
        totals.len() == pushed.len() + 1,
        popped.len() == pushed.len(),
        forall|i: int|
            0 <= i < pushed.len() ==> totals[i + 1] == totals[i] + pushed[i] - #[trigger] popped[i],
    ensures
        totals.last() == totals[0] + int_sum(pushed) - int_sum(popped),
    decreases pushed.len(),
{
    if pushed.len() > 0 {
        let n = pushed.len() as int;
        lemma_frequency_conservation(
            totals.drop_last(),
            pushed.drop_last(),
            popped.drop_last(),
        );
        assert(totals.drop_last()[0] == totals[0]);
        assert(totals.drop_last().last() == totals[n - 1]);
        assert(totals.last() == totals[n - 1] + pushed[n - 1] - popped[n - 1]);
    }
}

} // verus!
