//! The file table: which declared file holds which byte range of the
//! content, and where each completed piece's bytes land. The surrounding
//! program creates the files and performs the writes this module plans.

use crate::torrent_parser::{file_sizes_sum, Torrent};
use vstd::prelude::*;

verus! {

/// One declared file: its byte offset inside the whole content, its
/// relative path, and its length.
#[derive(Debug, Clone)]
pub struct FileInfo {
    pub offset: i128,
    pub path: String,
    pub size: i128,
}

/// One planned write: seek to `seek` inside the file and write the piece's
/// bytes from `data_start` up to `data_end`.
pub struct WriteOp {
    pub seek: u64,
    pub data_start: usize,
    pub data_end: usize,
}

/// The file table of a torrent, offsets running over the declared lengths.
pub struct TorrentFiles {
    pub files: Vec<FileInfo>,
}

/// Where a piece spanning `[start, finish]` lands in a file: `None` when the
/// ranges do not overlap or the write would be empty, else the seek position
/// and the piece-data range.
pub open spec fn spec_write_op(fi: FileInfo, start: int, finish: int, data_len: int) -> Option<
    (int, int, int),
> {
    let data_start = if fi.offset > start {
        fi.offset - start
    } else {
        0
    };
    let data_end = if fi.offset + fi.size - start < data_len {
        fi.offset + fi.size - start
    } else {
        data_len
    };
    if fi.offset <= finish && fi.offset + fi.size >= start && data_start < data_end {
        Some((data_start + start - fi.offset, data_start, data_end))
    } else {
        None
    }
}

impl TorrentFiles {
    /// The table mirrors the torrent's file list, with each offset the sum
    /// of the lengths before it.
    pub open spec fn wf(self, t: Torrent) -> bool {
        &&& self.files@.len() == t.file_list@.len()
        &&& forall|k: int|
            0 <= k < self.files@.len() ==> {
                &&& (#[trigger] self.files@[k]).path == t.file_list@[k].0
                &&& self.files@[k].size == t.file_list@[k].1
                &&& self.files@[k].offset == file_sizes_sum(t.file_list@.subrange(0, k))
            }
    }

    /// Builds the file table from the declared file list, accumulating
    /// offsets.
    #[verifier::loop_isolation(false)]
    pub fn new(torrent: &Torrent) -> (r: TorrentFiles)
        requires
            torrent.wf(),
        ensures
            r.wf(*torrent),
    {
        let mut files: Vec<FileInfo> = Vec::new();
        let mut constant_size: i128 = 0;
        let mut k: usize = 0;
        while k < torrent.file_list.len()
            invariant
                k <= torrent.file_list@.len(),
                files@.len() == k,
                constant_size == file_sizes_sum(torrent.file_list@.subrange(0, k as int)),
                0 <= constant_size,
                forall|i: int|
                    0 <= i < k ==> {
                        &&& (#[trigger] files@[i]).path == torrent.file_list@[i].0
                        &&& files@[i].size == torrent.file_list@[i].1
                        &&& files@[i].offset == file_sizes_sum(
                            torrent.file_list@.subrange(0, i),
                        )
                    },
            decreases torrent.file_list@.len() - k,
        {
            let entry = &torrent.file_list[k];
            let path = entry.0.clone();
            let entry_size: i128 = entry.1;
            proof {
                crate::torrent_parser::lemma_prefix_sum_bounded(torrent.file_list@, k as int);
            }
            files.push(FileInfo { offset: constant_size, path, size: entry_size });
            constant_size = constant_size + entry_size;
            k = k + 1;
            proof {
                assert(torrent.file_list@.subrange(0, k as int).drop_last()
                    =~= torrent.file_list@.subrange(0, k - 1));
            }
        }
        TorrentFiles { files }
    }

    /// Plans the writes for one completed piece of `data_len` bytes: one
    /// entry per declared file, `Some` exactly where the piece's byte range
    /// overlaps the file's.
    #[verifier::loop_isolation(false)]
    pub fn write_plan(&self, torrent: &Torrent, piece_index: usize, data_len: usize) -> (r: Vec<
        Option<WriteOp>,
    >)
        requires
            torrent.wf(),
            self.wf(*torrent),
            piece_index < torrent.num_pieces,
            data_len <= torrent.piece_len,
        ensures
            r@.len() == self.files@.len(),
            forall|k: int|
                0 <= k < r@.len() ==> (match (
                    #[trigger] r@[k],
                    spec_write_op(
                        self.files@[k],
                        piece_index * torrent.piece_len,
                        piece_index * torrent.piece_len + torrent.piece_len,
                        data_len as int,
                    ),
                ) {
                    (Some(op), Some(sp)) => op.seek == sp.0 && op.data_start == sp.1
                        && op.data_end == sp.2,
                    (None, None) => true,
                    _ => false,
                }),
    {
        proof {
            assert(piece_index * torrent.piece_len <= (torrent.num_pieces as int) * (
            torrent.piece_len as int)) by {
                vstd::arithmetic::mul::lemma_mul_inequality(
                    piece_index as int,
                    torrent.num_pieces as int,
                    torrent.piece_len as int,
                );
            }
            assert((torrent.num_pieces as int) * (torrent.piece_len as int) <= (i32::MAX as int)
                * (i32::MAX as int)) by {
                vstd::arithmetic::mul::lemma_mul_upper_bound(
                    torrent.num_pieces as int,
                    i32::MAX as int,
                    torrent.piece_len as int,
                    i32::MAX as int,
                );
            }
        }
        let start_bytes: i128 = piece_index as i128 * torrent.piece_len as i128;
        let finish_bytes: i128 = start_bytes + torrent.piece_len as i128;
        let mut r: Vec<Option<WriteOp>> = Vec::new();
        let mut k: usize = 0;
        while k < self.files.len()
            invariant
                k <= self.files@.len(),
                r@.len() == k,
                forall|i: int|
                    0 <= i < k ==> (match (
                        #[trigger] r@[i],
                        spec_write_op(
                            self.files@[i],
                            piece_index * torrent.piece_len,
                            piece_index * torrent.piece_len + torrent.piece_len,
                            data_len as int,
                        ),
                    ) {
                        (Some(op), Some(sp)) => op.seek == sp.0 && op.data_start == sp.1
                            && op.data_end == sp.2,
                        (None, None) => true,
                        _ => false,
                    }),
            decreases self.files@.len() - k,
        {
            let fi = &self.files[k];
            proof {
                crate::torrent_parser::lemma_prefix_sum_bounded(torrent.file_list@, k as int);
                assert(0 <= fi.offset);
                assert(fi.offset + fi.size <= torrent.size);
            }
            let start_offset: i128 = fi.offset;
            let end_offset: i128 = fi.size + fi.offset;
            if start_offset <= finish_bytes && end_offset >= start_bytes {
                let data_start_w: i128 = if start_offset > start_bytes {
                    start_offset - start_bytes
                } else {
                    0
                };
                let data_end_w: i128 = if end_offset - start_bytes < data_len as i128 {
                    end_offset - start_bytes
                } else {
                    data_len as i128
                };
                if data_start_w < data_end_w {
                    let op = WriteOp {
                        seek: (data_start_w + start_bytes - start_offset) as u64,
                        data_start: data_start_w as usize,
                        data_end: data_end_w as usize,
                    };
                    r.push(Some(op));
                } else {
                    r.push(None);
                }
            } else {
                r.push(None);
            }
            k = k + 1;
        }
        r
    }
}

} // verus!
