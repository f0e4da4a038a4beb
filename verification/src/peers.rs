//! The coordinator's state: the shared work queue, the deduplicated peer
//! endpoint set, the file table, and the completion count. The surrounding
//! program spawns tracker and peer tasks and runs the channels; every
//! decision — admitting an endpoint, recording a completed piece, deciding
//! when the download is finished — is made here.

use crate::file::TorrentFiles;
use crate::torrent_parser::Torrent;
use crate::worker::PieceQueue;
use crate::Address;
use vstd::prelude::*;

verus! {

/// One download: the work queue shared with the sessions, the endpoints
/// already admitted, the file table, the torrent, and how many distinct
/// pieces have been completed.
pub struct Download {
    pub work_queue: PieceQueue,
    pub peers: Vec<Address>,
    pub files: TorrentFiles,
    pub torrent: Torrent,
    pub completed_count: usize,
}

impl Download {
    /// Coordinator invariant: the torrent and queue are well formed, the
    /// endpoint set holds no duplicates, and the completion count is the
    /// size of the queue's completion set.
    pub open spec fn wf(self) -> bool {
        &&& self.torrent.wf()
        &&& self.work_queue.wf()
        &&& self.files.wf(self.torrent)
        &&& forall|i: int, j: int|
            0 <= i < j < self.peers@.len() ==> self.peers@[i] != self.peers@[j]
        &&& self.completed_count == self.work_queue.completed@.len()
    }

    /// A fresh download of `torrent`: empty queue, no peers, no completed
    /// piece.
    pub fn new(torrent: Torrent) -> (r: Download)
        requires
            torrent.wf(),
        ensures
            r.wf(),
            r.torrent == torrent,
            r.peers@.len() == 0,
            r.completed_count == 0,
            r.work_queue.queue@.len() == 0,
            r.work_queue.completed@.len() == 0,
            !r.work_queue.finished,
    {
        let files = TorrentFiles::new(&torrent);
        Download {
            work_queue: PieceQueue::new(),
            peers: Vec::new(),
            files,
            torrent,
            completed_count: 0,
        }
    }

    /// Admits a peer endpoint: true exactly when it was not seen before, so
    /// that exactly one session runs per distinct `(ip, port)`.
    #[verifier::loop_isolation(false)]
    pub fn register_peer(&mut self, addr: Address) -> (r: bool)
        requires
            old(self).wf(),
        ensures
            final(self).wf(),
            final(self).torrent == old(self).torrent,
            final(self).work_queue == old(self).work_queue,
            final(self).files == old(self).files,
            final(self).completed_count == old(self).completed_count,
            r == !old(self).peers@.contains(addr),
            r ==> final(self).peers@ == old(self).peers@.push(addr),
            !r ==> final(self).peers@ == old(self).peers@,
            final(self).peers@.contains(addr),
    {
        let mut i: usize = 0;
        while i < self.peers.len()
            invariant
                i <= self.peers@.len(),
                forall|j: int| 0 <= j < i ==> self.peers@[j] != addr,
                *self == *old(self),
            decreases self.peers@.len() - i,
        {
            let p = &self.peers[i];
            if p.0[0] == addr.0[0] && p.0[1] == addr.0[1] && p.0[2] == addr.0[2] && p.0[3]
                == addr.0[3] && p.1 == addr.1 {
                proof {
                    assert(p.0@ =~= addr.0@);
                    assert(self.peers@[i as int] == addr);
                }
                return false;
            }
            i = i + 1;
        }
        proof {
            assert forall|j: int| 0 <= j < self.peers@.len() implies self.peers@[j] != addr by {
                if self.peers@[j] == addr {
                    assert(self.peers@[j].0@ == addr.0@);
                }
            }
        }
        let ghost prev = self.peers@;
        self.peers.push(addr);
        proof {
            assert(forall|j: int| 0 <= j < prev.len() ==> (#[trigger] self.peers@[j]) == prev[j]);
            assert(self.peers@[prev.len() as int] == addr);
        }
        true
    }

    /// Records one verified piece arriving from a session. Returns whether
    /// the piece was newly completed and whether the download is now
    /// finished; on the finishing piece the work queue is closed so blocked
    /// sessions wake and exit. A piece index seen a second time changes
    /// nothing: each index is counted exactly once.
    pub fn on_piece(&mut self, piece_index: usize) -> (r: (bool, bool))
        requires
            old(self).wf(),
            piece_index < old(self).torrent.num_pieces,
        ensures
            final(self).wf(),
            final(self).torrent == old(self).torrent,
            final(self).files == old(self).files,
            final(self).peers@ == old(self).peers@,
            final(self).work_queue.queue@ == old(self).work_queue.queue@,
            r.0 == !old(self).work_queue.is_completed(piece_index),
            final(self).work_queue.is_completed(piece_index),
            forall|k: usize|
                #[trigger] final(self).work_queue.is_completed(k) <==> old(self).work_queue.is_completed(k) || k == piece_index,
            r.0 ==> final(self).completed_count == old(self).completed_count + 1,
            !r.0 ==> final(self).completed_count == old(self).completed_count,
            r.1 == (final(self).completed_count == final(self).torrent.num_pieces),
            r.1 ==> final(self).work_queue.finished,
    {
        let fresh = self.work_queue.complete(piece_index);
        let ghost mid = self.work_queue;
        if fresh {
            self.completed_count = self.work_queue.completed.len();
        }
        let finished = self.completed_count == self.torrent.num_pieces;
        if finished {
            self.work_queue.close();
        }
        proof {
            assert forall|k: usize| #[trigger]
                self.work_queue.is_completed(k) <==> old(self).work_queue.is_completed(k) || k
                == piece_index by {
                assert(mid.is_completed(k) <==> old(self).work_queue.is_completed(k) || k
                    == piece_index);
                assert(self.work_queue.completed@ == mid.completed@);
            }
        }
        (fresh, finished)
    }
}

} // verus!
