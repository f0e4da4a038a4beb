//! The metainfo view: the immutable facts about a torrent that every other
//! component consults. The bencoded file itself is read and decoded outside
//! the library; this module receives plain values and validates them.

use crate::digest::{sha1_digest, sha1_of};
use vstd::prelude::*;

verus! {

/// Typed view of a torrent's metainfo, validated on construction.
///
/// `size` is the total content size in bytes, `piece_len` the nominal piece
/// length, `num_pieces` the number of pieces, `hashes` one 20-byte SHA-1
/// digest per piece, `info_raw` the raw bencoded bytes of the `info`
/// dictionary (exactly as they appeared in the source), `file_list` the
/// declared files as `(name, length)` pairs, and `announce_urls` the tracker
/// URLs.
pub struct Torrent {
    pub size: i128,
    pub piece_len: i32,
    pub num_pieces: usize,
    pub hashes: Vec<Vec<u8>>,
    pub info_raw: Vec<u8>,
    pub file_list: Vec<(String, i128)>,
    pub announce_urls: Vec<String>,
}

/// The sum of the declared file lengths.
pub open spec fn file_sizes_sum(files: Seq<(String, i128)>) -> int
    decreases files.len(),
{
    if files.len() == 0 {
        0
    } else {
        file_sizes_sum(files.drop_last()) + files.last().1
    }
}

impl Torrent {
    /// Well-formedness: positive sizes, one 20-byte hash per piece, and a
    /// piece count that matches `ceil(size / piece_len)`.
    pub open spec fn wf(self) -> bool {
        &&& 0 < self.piece_len
        &&& 0 < self.size <= u64::MAX
        &&& self.num_pieces == (self.size + self.piece_len - 1) / (self.piece_len as int)
        &&& self.num_pieces <= i32::MAX
        &&& self.hashes.len() == self.num_pieces
        &&& forall|i: int| 0 <= i < self.hashes.len() ==> (#[trigger] self.hashes[i])@.len() == 20
        &&& file_sizes_sum(self.file_list@) == self.size
        &&& forall|k: int| 0 <= k < self.file_list@.len() ==> 0 <= (#[trigger] self.file_list@[k]).1
    }

    /// The length of piece `i`: the nominal piece length, except for the last
    /// piece, which is `size % piece_len` when that remainder is non-zero.
    pub open spec fn spec_piece_len(self, i: int) -> int {
        if i == self.num_pieces - 1 && (self.size as int) % (self.piece_len as int) != 0 {
            (self.size as int) % (self.piece_len as int)
        } else {
            self.piece_len as int
        }
    }

    /// The number of 16384-byte blocks composing piece `i`, rounding up.
    pub open spec fn spec_blocks_per_piece(self, i: int) -> int {
        (self.spec_piece_len(i) + 16383) / 16384
    }

    /// The length of block `b` of piece `i`: 16384 except for the final
    /// block, which carries the remainder of the piece.
    pub open spec fn spec_block_len(self, i: int, b: int) -> int {
        if b == self.spec_blocks_per_piece(i) - 1 {
            self.spec_piece_len(i) - (self.spec_blocks_per_piece(i) - 1) * 16384
        } else {
            16384
        }
    }

    /// Validates the plain metainfo values and assembles the view.
    /// Returns `None` exactly when the values are inconsistent: non-positive
    /// sizes, a hash of the wrong width, a piece count that does not cover
    /// the content, or file lengths that do not sum to the total size.
    pub fn new(
        size: i128,
        piece_len: i32,
        hashes: Vec<Vec<u8>>,
        info_raw: Vec<u8>,
        file_list: Vec<(String, i128)>,
        announce_urls: Vec<String>,
    ) -> (r: Option<Torrent>)
        ensures
            match r {
                Some(t) => {
                    &&& t.wf()
                    &&& t.size == size
                    &&& t.piece_len == piece_len
                    &&& t.hashes == hashes
                    &&& t.info_raw == info_raw
                    &&& t.file_list == file_list
                    &&& t.announce_urls == announce_urls
                    &&& file_sizes_sum(file_list@) == size
                    &&& forall|k: int| 0 <= k < file_list@.len() ==> 0 <= (#[trigger] file_list@[k]).1
                },
                None => !({
                    &&& 0 < piece_len
                    &&& 0 < size <= u64::MAX
                    &&& hashes@.len() == (size + piece_len - 1) / (piece_len as int)
                    &&& hashes@.len() <= i32::MAX
                    &&& forall|i: int|
                        0 <= i < hashes@.len() ==> (#[trigger] hashes@[i])@.len() == 20
                    &&& file_sizes_sum(file_list@) == size
                    &&& forall|k: int| 0 <= k < file_list@.len() ==> 0 <= (#[trigger] file_list@[k]).1
                }),
            },
    {
        if piece_len <= 0 || size <= 0 || size > u64::MAX as i128 {
            return None;
        }
        let expected: u128 = (size as u128 + piece_len as u128 - 1) / piece_len as u128;
        proof {
            assert(expected == (size + piece_len - 1) / (piece_len as int));
        }
        let n: usize = hashes.len();
        if expected > i32::MAX as u128 {
            return None;
        }
        let expected_len: usize = expected as usize;
        if n != expected_len {
            return None;
        }
        let mut i: usize = 0;
        while i < hashes.len()
            invariant
                i <= hashes@.len(),
                forall|k: int| 0 <= k < i ==> (#[trigger] hashes@[k])@.len() == 20,
            decreases hashes@.len() - i,
        {
            if hashes[i].len() != 20 {
                return None;
            }
            i = i + 1;
        }
        let total = match checked_file_sizes_sum(&file_list) {
            Some(t) => t,
            None => { return None; },
        };
        if total != size {
            return None;
        }
        let num_pieces: usize = hashes.len();
        Some(Torrent { size, piece_len, num_pieces, hashes, info_raw, file_list, announce_urls })
    }

    /// The SHA-1 of the raw bencoded `info` dictionary, identifying the
    /// torrent in handshakes and tracker announces.
    pub fn info_hash(&self) -> (r: Vec<u8>)
        ensures
            r@ == sha1_of(self.info_raw@),
            r@.len() == 20,
    {
        sha1_digest(&self.info_raw)
    }

    /// The length of piece `piece_index` in bytes.
    pub fn piece_len(&self, piece_index: i32) -> (r: i32)
        requires
            self.wf(),
            0 <= piece_index < self.num_pieces,
        ensures
            r == self.spec_piece_len(piece_index as int),
            0 < r <= self.piece_len,
    {
        proof {
            lemma_piece_len_bounds(*self, piece_index as int);
        }
        let last_index: usize = self.num_pieces - 1;
        if piece_index as usize == last_index {
            let rem: i128 = self.size % (self.piece_len as i128);
            if rem != 0 {
                rem as i32
            } else {
                self.piece_len
            }
        } else {
            self.piece_len
        }
    }

    /// How many blocks compose piece `piece_index`.
    pub fn blocks_per_piece(&self, piece_index: i32) -> (r: i32)
        requires
            self.wf(),
            0 <= piece_index < self.num_pieces,
        ensures
            r == self.spec_blocks_per_piece(piece_index as int),
            0 < r,
            (r - 1) * 16384 < self.spec_piece_len(piece_index as int) <= r * 16384,
    {
        let pl = self.piece_len(piece_index);
        let r = ((pl as i64 + 16383) / 16384) as i32;
        proof {
            lemma_ceil_div_16384(pl as int);
        }
        r
    }

    /// The length of block `block_index` of piece `piece_index` in bytes.
    pub fn block_len(&self, piece_index: i32, block_index: i32) -> (r: i32)
        requires
            self.wf(),
            0 <= piece_index < self.num_pieces,
            0 <= block_index < self.spec_blocks_per_piece(piece_index as int),
        ensures
            r == self.spec_block_len(piece_index as int, block_index as int),
            0 < r <= 16384,
    {
        let bpp = self.blocks_per_piece(piece_index);
        if block_index == bpp - 1 {
            let pl = self.piece_len(piece_index);
            pl - (bpp - 1) * 16384
        } else {
            16384
        }
    }
}

/// Piece lengths are positive and never exceed the nominal piece length.
proof fn lemma_piece_len_bounds(t: Torrent, i: int)
    requires
        t.wf(),
        0 <= i < t.num_pieces,
    ensures
        0 < t.spec_piece_len(i) <= t.piece_len,
        0 <= (t.size as int) % (t.piece_len as int) < t.piece_len,
{
    let p = t.piece_len as int;
    vstd::arithmetic::div_mod::lemma_mod_bound(t.size as int, p);
}

/// Facts about rounding a positive length up to whole 16384-byte blocks.
proof fn lemma_ceil_div_16384(pl: int)
    requires
        0 < pl,
    ensures
        0 < (pl + 16383) / 16384,
        ((pl + 16383) / 16384 - 1) * 16384 < pl <= ((pl + 16383) / 16384) * 16384,
{
    let q = (pl + 16383) / 16384;
    vstd::arithmetic::div_mod::lemma_fundamental_div_mod(pl + 16383, 16384);
    vstd::arithmetic::div_mod::lemma_mod_bound(pl + 16383, 16384);
    assert(q * 16384 == (pl + 16383) - (pl + 16383) % 16384);
}

/// Sums the declared file lengths, rejecting negative lengths and overflow.
/// Returns `Some(total)` exactly when every length is non-negative and the
/// total fits in an `i128`.
pub fn checked_file_sizes_sum(files: &Vec<(String, i128)>) -> (r: Option<i128>)
    ensures
        match r {
            Some(total) => {
                &&& total == file_sizes_sum(files@)
                &&& forall|k: int| 0 <= k < files@.len() ==> 0 <= (#[trigger] files@[k]).1
            },
            None => !({
                &&& forall|k: int| 0 <= k < files@.len() ==> 0 <= (#[trigger] files@[k]).1
                &&& file_sizes_sum(files@) <= i128::MAX
            }),
        },
{
    let mut acc: i128 = 0;
    let mut i: usize = 0;
    while i < files.len()
        invariant
            i <= files@.len(),
            0 <= acc,
            acc == file_sizes_sum(files@.subrange(0, i as int)),
            forall|k: int| 0 <= k < i ==> 0 <= (#[trigger] files@[k]).1,
        decreases files@.len() - i,
    {
        let entry_len: i128 = files[i].1;
        if entry_len < 0 {
            proof {
                lemma_sum_lower_bound(files@, i as int);
            }
            return None;
        }
        if entry_len > i128::MAX - acc {
            proof {
                lemma_sum_lower_bound(files@, i as int);
            }
            return None;
        }
        acc = acc + entry_len;
        i = i + 1;
        proof {
            assert(files@.subrange(0, i as int).drop_last() =~= files@.subrange(0, i - 1));
        }
    }
    proof {
        assert(files@.subrange(0, files@.len() as int) =~= files@);
    }
    Some(acc)
}

/// If every entry from position `i` on is non-negative, the whole sum is at
/// least the sum of the first `i` entries plus the entry at `i`.
proof fn lemma_sum_lower_bound(files: Seq<(String, i128)>, i: int)
    requires
        0 <= i < files.len(),
    ensures
        (forall|k: int| i <= k < files.len() ==> 0 <= (#[trigger] files[k]).1) ==> file_sizes_sum(
            files,
        ) >= file_sizes_sum(files.subrange(0, i)) + files[i].1,
    decreases files.len() - i,
{
    if i == files.len() - 1 {
        assert(files.drop_last() =~= files.subrange(0, i));
    } else {
        lemma_sum_lower_bound(files.drop_last(), i);
        assert(files.drop_last().subrange(0, i) =~= files.subrange(0, i));
        assert(files.drop_last()[i] == files[i]);
    }
}

/// A sum of non-negative lengths is non-negative.
pub(crate) proof fn lemma_sum_nonneg(files: Seq<(String, i128)>)
    requires
        forall|i: int| 0 <= i < files.len() ==> 0 <= (#[trigger] files[i]).1,
    ensures
        0 <= file_sizes_sum(files),
    decreases files.len(),
{
    if files.len() > 0 {
        assert(forall|i: int|
            0 <= i < files.drop_last().len() ==> (#[trigger] files.drop_last()[i]) == files[i]);
        lemma_sum_nonneg(files.drop_last());
    }
}

/// With non-negative lengths, every prefix sum is non-negative and, with the
/// entry that follows it, stays within the whole sum.
pub(crate) proof fn lemma_prefix_sum_bounded(files: Seq<(String, i128)>, k: int)
    requires
        0 <= k <= files.len(),
        forall|i: int| 0 <= i < files.len() ==> 0 <= (#[trigger] files[i]).1,
    ensures
        0 <= file_sizes_sum(files.subrange(0, k)),
        k < files.len() ==> file_sizes_sum(files.subrange(0, k)) + files[k].1 <= file_sizes_sum(
            files,
        ),
        file_sizes_sum(files.subrange(0, k)) <= file_sizes_sum(files),
{
    assert(forall|i: int|
        0 <= i < files.subrange(0, k).len() ==> (#[trigger] files.subrange(0, k)[i]) == files[i]);
    lemma_sum_nonneg(files.subrange(0, k));
    if k < files.len() {
        lemma_sum_lower_bound(files, k);
    } else {
        assert(files.subrange(0, k) =~= files);
    }
    if k < files.len() {
        assert(file_sizes_sum(files.subrange(0, k)) <= file_sizes_sum(files));
    }
}

/// The total content size: the sum of the declared file lengths, or `None`
/// when a length is negative or the sum does not fit in an `i128`.
pub fn size(files: &Vec<(String, i128)>) -> (r: Option<i128>)
    ensures
        match r {
            Some(total) => {
                &&& total == file_sizes_sum(files@)
                &&& forall|k: int| 0 <= k < files@.len() ==> 0 <= (#[trigger] files@[k]).1
            },
            None => !({
                &&& forall|k: int| 0 <= k < files@.len() ==> 0 <= (#[trigger] files@[k]).1
                &&& file_sizes_sum(files@) <= i128::MAX
            }),
        },
{
    checked_file_sizes_sum(files)
}


/// Last-piece law: when the total size is `k` whole pieces plus a remainder
/// `r`, the last piece spans `r` bytes and rounds up to `ceil(r / 16384)`
/// blocks.
pub proof fn lemma_last_piece(t: Torrent, k: int, r: int)
    requires
        t.wf(),
        t.size == k * t.piece_len + r,
        0 < r < t.piece_len,
    ensures
        t.spec_piece_len(t.num_pieces - 1) == r,
        t.spec_blocks_per_piece(t.num_pieces - 1) == (r + 16383) / 16384,
        t.num_pieces == k + 1,
{
    vstd::arithmetic::div_mod::lemma_fundamental_div_mod_converse_mod(
        t.size as int,
        t.piece_len as int,
        k,
        r,
    );
    assert((k + 1) * (t.piece_len as int) == k * (t.piece_len as int) + t.piece_len)
        by (nonlinear_arith);
    vstd::arithmetic::div_mod::lemma_fundamental_div_mod_converse_div(
        t.size + t.piece_len - 1,
        t.piece_len as int,
        k + 1,
        r - 1,
    );
}

/// Last-block law: the final block of a piece carries what remains after
/// the full 16384-byte blocks before it, and every earlier block carries
/// 16384 bytes.
pub proof fn lemma_last_block(t: Torrent, i: int)
    requires
        t.wf(),
        0 <= i < t.num_pieces,
    ensures
        t.spec_block_len(i, t.spec_blocks_per_piece(i) - 1) == t.spec_piece_len(i) - (
        t.spec_blocks_per_piece(i) - 1) * 16384,
        forall|b: int|
            0 <= b < t.spec_blocks_per_piece(i) - 1 ==> t.spec_block_len(i, b) == 16384,
{
}

} // verus!
