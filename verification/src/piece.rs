//! The piece assembler: tracks, for a single in-flight piece, which blocks
//! have been requested and which have arrived, and produces the next block
//! request on demand.

use crate::message::{build_request, request_bytes};
use crate::torrent_parser::Torrent;
use vstd::prelude::*;

verus! {

/// How many entries of `s` are true.
pub open spec fn count_true(s: Seq<bool>) -> int
    decreases s.len(),
{
    if s.len() == 0 {
        0
    } else {
        count_true(s.drop_last()) + if s.last() {
            1int
        } else {
            0int
        }
    }
}

/// Updating one entry moves the count by the difference at that entry.
pub proof fn lemma_count_true_update(s: Seq<bool>, i: int, b: bool)
    requires
        0 <= i < s.len(),
    ensures
        count_true(s.update(i, b)) == count_true(s) + (if b {
            1int
        } else {
            0int
        }) - (if s[i] {
            1int
        } else {
            0int
        }),
    decreases s.len(),
{
    if i == s.len() - 1 {
        assert(s.update(i, b).drop_last() =~= s.drop_last());
    } else {
        lemma_count_true_update(s.drop_last(), i, b);
        assert(s.update(i, b).drop_last() =~= s.drop_last().update(i, b));
    }
}

/// A count never exceeds the length, and equals it only when every entry is
/// true.
pub proof fn lemma_count_true_bounds(s: Seq<bool>)
    ensures
        0 <= count_true(s) <= s.len(),
        count_true(s) == s.len() <==> (forall|i: int| 0 <= i < s.len() ==> s[i]),
    decreases s.len(),
{
    if s.len() > 0 {
        lemma_count_true_bounds(s.drop_last());
        if count_true(s) == s.len() {
            assert forall|i: int| 0 <= i < s.len() implies s[i] by {
                if i < s.len() - 1 {
                    assert(s.drop_last()[i] == s[i]);
                }
            }
        }
        if forall|i: int| 0 <= i < s.len() ==> s[i] {
            assert forall|i: int| 0 <= i < s.drop_last().len() implies s.drop_last()[i] by {
                assert(s.drop_last()[i] == s[i]);
            }
        }
    }
}

/// A true entry witnesses a positive count.
pub proof fn lemma_count_true_pos(s: Seq<bool>, i: int)
    requires
        0 <= i < s.len(),
        s[i],
    ensures
        count_true(s) >= 1,
    decreases s.len(),
{
    if i == s.len() - 1 {
        lemma_count_true_bounds(s.drop_last());
    } else {
        assert(s.drop_last()[i] == s[i]);
        lemma_count_true_pos(s.drop_last(), i);
    }
}

/// Pointwise implication between boolean sequences orders their counts.
pub proof fn lemma_count_true_le(s1: Seq<bool>, s2: Seq<bool>)
    requires
        s1.len() == s2.len(),
        forall|i: int| 0 <= i < s1.len() ==> s1[i] ==> s2[i],
    ensures
        count_true(s1) <= count_true(s2),
    decreases s1.len(),
{
    if s1.len() > 0 {
        assert(forall|i: int|
            0 <= i < s1.drop_last().len() ==> s1.drop_last()[i] ==> s2.drop_last()[i]) by {
            assert(forall|i: int| 0 <= i < s1.len() - 1 ==> s1.drop_last()[i] == s1[i]);
            assert(forall|i: int| 0 <= i < s2.len() - 1 ==> s2.drop_last()[i] == s2[i]);
        }
        lemma_count_true_le(s1.drop_last(), s2.drop_last());
    }
}

/// The concatenation of the views of `bs`.
pub open spec fn concat_blocks(bs: Seq<Vec<u8>>) -> Seq<u8>
    decreases bs.len(),
{
    if bs.len() == 0 {
        Seq::empty()
    } else {
        concat_blocks(bs.drop_last()) + bs.last()@
    }
}

/// A verified piece ready for the coordinator: the assembled bytes and the
/// index they belong to.
pub struct PieceWrite {
    pub data: Vec<u8>,
    pub piece_index: usize,
}

/// One in-flight piece: the block payloads received so far, the parallel
/// "requested" flags, and the counters over them.
pub struct Piece {
    pub piece_index: i32,
    pub frequency: usize,
    pub blocks: Option<Vec<Vec<u8>>>,
    pub length: usize,
    pub blocks_requested: Vec<bool>,
    pub completed: usize,
    pub requested: usize,
}

impl Piece {
    /// Whether block `i` has arrived.
    pub open spec fn block_present(self, i: int) -> bool {
        match self.blocks {
            Some(bs) => bs[i]@.len() > 0,
            None => false,
        }
    }

    /// The presence flags as a sequence parallel to `blocks_requested`.
    pub open spec fn presence(self) -> Seq<bool> {
        Seq::new(self.length as nat, |i: int| self.block_present(i))
    }

    /// Structural invariant: the vectors span `length` blocks, the counters
    /// count them, and a block arrives only after it was requested — so
    /// `completed <= requested <= length`, and `completed == length` exactly
    /// when every slot is populated.
    pub open spec fn wf(self) -> bool {
        &&& self.blocks_requested@.len() == self.length
        &&& (self.blocks matches Some(bs) ==> bs@.len() == self.length)
        &&& self.requested == count_true(self.blocks_requested@)
        &&& self.completed == count_true(self.presence())
        &&& forall|i: int|
            0 <= i < self.length && #[trigger] self.block_present(i)
                ==> self.blocks_requested@[i]
    }

    /// Agreement with the metainfo: the piece exists, spans the right number
    /// of blocks, and every stored block has its declared length.
    pub open spec fn consistent_with(self, t: Torrent) -> bool {
        &&& 0 <= self.piece_index < t.num_pieces
        &&& self.length == t.spec_blocks_per_piece(self.piece_index as int)
        &&& forall|i: int|
            0 <= i < self.length && #[trigger] self.block_present(i) ==> (match self.blocks {
                Some(bs) => bs[i]@.len() == t.spec_block_len(self.piece_index as int, i),
                None => false,
            })
    }

    /// `completed <= requested <= length` follows from the invariant.
    pub proof fn lemma_counters_ordered(self)
        requires
            self.wf(),
        ensures
            self.completed <= self.requested <= self.length,
    {
        lemma_count_true_bounds(self.blocks_requested@);
        lemma_count_true_bounds(self.presence());
        lemma_count_true_le(self.presence(), self.blocks_requested@);
    }

    /// A fresh assembler for piece `piece_index`, popped from the work queue
    /// at `frequency`. No block is requested or present yet; the block
    /// payload table is allocated lazily.
    pub fn new(piece_index: i32, frequency: usize, torrent: &Torrent) -> (r: Piece)
        requires
            torrent.wf(),
            0 <= piece_index < torrent.num_pieces,
        ensures
            r.wf(),
            r.consistent_with(*torrent),
            r.piece_index == piece_index,
            r.frequency == frequency,
            r.length == torrent.spec_blocks_per_piece(piece_index as int),
            r.blocks is None,
            r.completed == 0,
            r.requested == 0,
            forall|i: int| 0 <= i < r.length ==> !r.blocks_requested@[i],
    {
        let n: usize = torrent.blocks_per_piece(piece_index) as usize;
        let mut flags: Vec<bool> = Vec::new();
        while flags.len() < n
            invariant
                flags@.len() <= n,
                count_true(flags@) == 0,
                forall|i: int| 0 <= i < flags@.len() ==> !flags@[i],
            decreases n - flags@.len(),
        {
            let ghost prev = flags@;
            flags.push(false);
            proof {
                assert(flags@.drop_last() =~= prev);
            }
        }
        let r = Piece {
            piece_index,
            frequency,
            blocks: None,
            length: n,
            blocks_requested: flags,
            completed: 0,
            requested: 0,
        };
        proof {
            assert(r.presence() =~= Seq::new(n as nat, |i: int| false));
            lemma_count_all_false(r.presence());
        }
        r
    }

    /// Allocates the block table if needed and returns the first block not
    /// yet requested, or `None` when every block has been requested.
    #[verifier::loop_isolation(false)]
    pub fn get_needed(&mut self, torrent: &Torrent) -> (r: Option<usize>)
        requires
            old(self).wf(),
        ensures
            final(self).wf(),
            final(self).blocks is Some,
            final(self).piece_index == old(self).piece_index,
            final(self).frequency == old(self).frequency,
            final(self).length == old(self).length,
            final(self).blocks_requested == old(self).blocks_requested,
            final(self).completed == old(self).completed,
            final(self).requested == old(self).requested,
            old(self).blocks matches Some(bs) ==> final(self).blocks matches Some(bs2) && bs2
                == bs,
            old(self).blocks is None ==> (final(self).blocks matches Some(bs2) && bs2@.len()
                == old(self).length && forall|i: int|
                0 <= i < bs2@.len() ==> (#[trigger] bs2@[i])@.len() == 0),
            forall|i: int| 0 <= i < old(self).length ==> final(self).block_present(i)
                == old(self).block_present(i),
            old(self).consistent_with(*torrent) ==> final(self).consistent_with(*torrent),
            match r {
                Some(b) => {
                    &&& b < old(self).length
                    &&& !old(self).blocks_requested@[b as int]
                    &&& forall|j: int| 0 <= j < b ==> old(self).blocks_requested@[j]
                },
                None => forall|j: int|
                    0 <= j < old(self).length ==> old(self).blocks_requested@[j],
            },
    {
        if self.blocks.is_none() {
            let mut table: Vec<Vec<u8>> = Vec::new();
            let n = self.length;
            while table.len() < n
                invariant
                    table@.len() <= n,
                    forall|i: int| 0 <= i < table@.len() ==> (#[trigger] table@[i])@.len() == 0,
                decreases n - table@.len(),
            {
                table.push(Vec::new());
            }
            let ghost prev = *self;
            self.blocks = Some(table);
            proof {
                assert(self.presence() =~= prev.presence());
            }
        }
        let mut i: usize = 0;
        while i < self.blocks_requested.len()
            invariant
                i <= self.blocks_requested@.len(),
                forall|j: int| 0 <= j < i ==> self.blocks_requested@[j],
            decreases self.blocks_requested@.len() - i,
        {
            if !self.blocks_requested[i] {
                return Some(i);
            }
            i = i + 1;
        }
        None
    }

    /// Stores an arrived block and advances the completion counter. Returns
    /// true exactly when this block completes the piece. The caller rejects
    /// out-of-range, duplicate, unrequested, empty, and mis-sized blocks.
    pub fn add_block(&mut self, index: usize, data: Vec<u8>) -> (r: bool)
        requires
            old(self).wf(),
            old(self).blocks is Some,
            index < old(self).length,
            old(self).blocks_requested@[index as int],
            !old(self).block_present(index as int),
            data@.len() > 0,
        ensures
            final(self).wf(),
            final(self).piece_index == old(self).piece_index,
            final(self).frequency == old(self).frequency,
            final(self).length == old(self).length,
            final(self).blocks_requested == old(self).blocks_requested,
            final(self).requested == old(self).requested,
            final(self).completed == old(self).completed + 1,
            final(self).blocks matches Some(bs) && bs@ == old(self).blocks->Some_0@.update(
                index as int,
                data,
            ),
            final(self).block_present(index as int),
            forall|i: int| 0 <= i < old(self).length && i != index
                ==> final(self).block_present(i) == old(self).block_present(i),
            r == (old(self).completed + 1 == old(self).length),
    {
        let ghost prev = *self;
        proof {
            lemma_count_true_bounds(prev.presence());
            assert(!prev.presence()[index as int]);
        }
        match &mut self.blocks {
            Some(bs) => {
                bs.set(index, data);
            },
            None => {
                proof {
                    assert(false);
                }
            },
        }
        self.completed = self.completed + 1;
        proof {
            assert(self.presence() =~= prev.presence().update(index as int, true));
            lemma_count_true_update(prev.presence(), index as int, true);
            assert forall|i: int|
                0 <= i < self.length && #[trigger] self.block_present(i)
                    implies self.blocks_requested@[i] by {
                if i != index as int {
                    assert(self.block_present(i) == prev.block_present(i));
                }
            }
        }
        self.completed == self.length
    }

    /// True when every block has been requested.
    pub fn is_done(&self) -> (r: bool)
        ensures
            r == (self.requested == self.length),
    {
        self.requested == self.length
    }

    /// Emits the request message for the first block not yet requested and
    /// marks it requested, or returns `None` when every block has already
    /// been requested.
    pub fn request(&mut self, torrent: &Torrent) -> (r: Option<Vec<u8>>)
        requires
            old(self).wf(),
            old(self).consistent_with(*torrent),
            torrent.wf(),
        ensures
            final(self).wf(),
            final(self).consistent_with(*torrent),
            final(self).blocks is Some,
            final(self).piece_index == old(self).piece_index,
            final(self).frequency == old(self).frequency,
            final(self).length == old(self).length,
            final(self).completed == old(self).completed,
            old(self).blocks matches Some(bs) ==> final(self).blocks matches Some(bs2) && bs2
                == bs,
            old(self).blocks is None ==> (final(self).blocks matches Some(bs2) && bs2@.len()
                == old(self).length && forall|i: int|
                0 <= i < bs2@.len() ==> (#[trigger] bs2@[i])@.len() == 0),
            forall|i: int| 0 <= i < old(self).length ==> final(self).block_present(i)
                == old(self).block_present(i),
            match r {
                Some(m) => exists|b: int|
                    {
                        &&& 0 <= b < old(self).length
                        &&& !old(self).blocks_requested@[b]
                        &&& forall|j: int| 0 <= j < b ==> old(self).blocks_requested@[j]
                        &&& m@ == request_bytes(
                            old(self).piece_index,
                            (16384 * b) as i32,
                            torrent.spec_block_len(old(self).piece_index as int, b) as u32,
                        )
                        &&& final(self).blocks_requested@ == old(self).blocks_requested@.update(
                            b,
                            true,
                        )
                        &&& final(self).requested == old(self).requested + 1
                    },
                None => {
                    &&& final(self).blocks_requested == old(self).blocks_requested
                    &&& final(self).requested == old(self).requested
                    &&& old(self).requested == old(self).length
                },
            },
    {
        let ghost before = *self;
        let needed = self.get_needed(torrent);
        match needed {
            Some(block_index) => {
                proof {
                    lemma_bpp_16384_bound(*torrent, self.piece_index as int);
                    assert(block_index as int * 16384 <= (self.length as int - 1) * 16384);
                }
                let offset: usize = block_index * 16384;
                let msg = build_request(
                    self.piece_index,
                    offset as i32,
                    torrent.block_len(self.piece_index, block_index as i32) as u32,
                );
                let ghost mid = *self;
                proof {
                    lemma_count_true_bounds(mid.blocks_requested@);
                    assert(!mid.blocks_requested@[block_index as int]);
                }
                self.blocks_requested.set(block_index, true);
                self.requested = self.requested + 1;
                proof {
                    lemma_count_true_update(mid.blocks_requested@, block_index as int, true);
                    assert forall|i: int| 0 <= i < self.length implies #[trigger] self
                        .block_present(i) == mid.block_present(i) by {}
                    assert forall|i: int|
                        0 <= i < self.length && #[trigger] self.block_present(i)
                            implies self.blocks_requested@[i] by {
                        assert(mid.block_present(i));
                        assert(mid.blocks_requested@[i]);
                    }
                    assert(self.presence() =~= mid.presence());
                }
                Some(msg)
            },
            None => {
                proof {
                    lemma_count_true_bounds(self.blocks_requested@);
                }
                None
            },
        }
    }

    /// The received payloads concatenated in block order.
    pub fn assemble(&self) -> (r: Vec<u8>)
        requires
            self.blocks is Some,
        ensures
            r@ == concat_blocks(self.blocks->Some_0@),
    {
        let mut data: Vec<u8> = Vec::new();
        match &self.blocks {
            Some(bs) => {
                let mut i: usize = 0;
                while i < bs.len()
                    invariant
                        i <= bs@.len(),
                        data@ == concat_blocks(bs@.subrange(0, i as int)),
                    decreases bs@.len() - i,
                {
                    crate::endian::push_slice(&mut data, bs[i].as_slice());
                    i = i + 1;
                    proof {
                        assert(bs@.subrange(0, i as int).drop_last() =~= bs@.subrange(
                            0,
                            i as int - 1,
                        ));
                    }
                }
                proof {
                    assert(bs@.subrange(0, bs@.len() as int) =~= bs@);
                }
            },
            None => {
                proof {
                    assert(false);
                }
            },
        }
        data
    }
}

/// Counting an all-false sequence yields zero.
proof fn lemma_count_all_false(s: Seq<bool>)
    requires
        forall|i: int| 0 <= i < s.len() ==> !s[i],
    ensures
        count_true(s) == 0,
    decreases s.len(),
{
    if s.len() > 0 {
        assert(forall|i: int| 0 <= i < s.drop_last().len() ==> s.drop_last()[i] == s[i]);
        lemma_count_all_false(s.drop_last());
    }
}

/// The block count of a piece times 16384 stays within a block of `i32`
/// range.
proof fn lemma_bpp_16384_bound(t: Torrent, i: int)
    requires
        t.wf(),
        0 <= i < t.num_pieces,
    ensures
        t.spec_blocks_per_piece(i) * 16384 <= i32::MAX as int + 16384,
        0 < t.spec_blocks_per_piece(i),
{
    let pl = t.spec_piece_len(i);
    let bpp = t.spec_blocks_per_piece(i);
    vstd::arithmetic::div_mod::lemma_mod_bound(t.size as int, t.piece_len as int);
    vstd::arithmetic::div_mod::lemma_fundamental_div_mod(pl + 16383, 16384);
    vstd::arithmetic::div_mod::lemma_mod_bound(pl + 16383, 16384);
}

} // verus!
