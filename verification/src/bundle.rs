//! The compressed-bundle container: a header that declares the decompressed
//! size and a table of compressed chunk sizes, followed by the chunks
//! themselves. The chunks are decompressed one by one by an external native
//! codec; this module parses the header, hands out the chunk boundaries, and
//! checks and concatenates what comes back.

use crate::error::ArchiveError;
use crate::wire::{le32_at, le64_at, read_u32, read_u64};
use vstd::prelude::*;

verus! {

/// A parsed bundle header: the decompressed payload size, the total size of
/// the compressed payload, the first-file encoding tag, the chunk count, the
/// decompressed size of every chunk but the last (`granularity`), the
/// compressed size of each chunk in order, and the offset at which the first
/// chunk's bytes start.
#[derive(Debug, Clone)]
pub struct Bundle {
    pub uncompressed_size: u64,
    pub total_payload_size: u64,
    pub first_file_encode: u32,
    pub block_count: u32,
    pub granularity: u32,
    pub block_sizes: Vec<u32>,
    pub payload_start: usize,
}

/// The fixed part of the header: three 32-bit sizes, then the head record of
/// 48 bytes, of which the last 16 are reserved.
pub open spec fn bundle_head_end() -> int {
    60
}

/// True when a whole bundle header fits in `d`: the fixed head plus one
/// 32-bit size per chunk.
pub open spec fn bundle_header_ok(d: Seq<u8>) -> bool {
    d.len() >= 60 && 60 + 4 * (le32_at(d, 36) as int) <= d.len()
}

/// The chunk count stored in `d`.
pub open spec fn bundle_block_count(d: Seq<u8>) -> nat {
    le32_at(d, 36) as nat
}

/// The stored compressed sizes of the chunks, in order.
pub open spec fn bundle_block_sizes(d: Seq<u8>) -> Seq<u32> {
    Seq::new(bundle_block_count(d), |i: int| le32_at(d, 60 + 4 * i))
}

/// The decompressed size owed by chunk `i`: the uniform granularity for
/// every chunk but the last, and whatever remains of the total for the last.
pub open spec fn chunk_uncompressed_size(total: u64, granularity: u32, count: int, i: int) -> int {
    if i < count - 1 {
        granularity as int
    } else if total - i * (granularity as int) >= 0 {
        total - i * (granularity as int)
    } else {
        0
    }
}

impl Bundle {
    /// True of every bundle built by `read_header`.
    pub open spec fn wf(&self, d: Seq<u8>) -> bool {
        &&& bundle_header_ok(d)
        &&& self.uncompressed_size == le64_at(d, 20)
        &&& self.total_payload_size == le64_at(d, 28)
        &&& self.first_file_encode == le32_at(d, 12)
        &&& self.block_count == le32_at(d, 36)
        &&& self.granularity == le32_at(d, 40)
        &&& self.block_sizes@ == bundle_block_sizes(d)
        &&& self.payload_start == 60 + 4 * (le32_at(d, 36) as int)
    }

    /// Parses a bundle header from the start of `data`: the 32-bit
    /// decompressed and compressed payload sizes and the head-record size,
    /// then the head record (first-file encoding tag, a reserved word, the
    /// two sizes again as 64-bit values, the chunk count, the chunk
    /// granularity, four reserved words), then one 32-bit compressed size
    /// per chunk. Fails with `OutOfBounds` exactly when the header does not
    /// fit.
    pub fn read_header(data: &[u8]) -> (r: Result<Bundle, ArchiveError>)
        ensures
            match r {
                Ok(b) => b.wf(data@),
                Err(e) => !bundle_header_ok(data@) && e == ArchiveError::OutOfBounds,
            },
    {
        let len = data.len();
        if len < 60 {
            return Err(ArchiveError::OutOfBounds);
        }
        let first_file_encode = read_u32(data, 12);
        let uncompressed_size = read_u64(data, 20);
        let total_payload_size = read_u64(data, 28);
        let block_count = read_u32(data, 36);
        let granularity = read_u32(data, 40);
        if (block_count as u64) * 4 > ((len - 60) as u64) {
            return Err(ArchiveError::OutOfBounds);
        }
        let count = block_count as usize;
        let mut block_sizes: Vec<u32> = Vec::new();
        let mut i: usize = 0;
        while i < count
            invariant
                len == data@.len(),
                60 + 4 * count <= len,
                i <= count,
                block_sizes@.len() == i,
                forall|j: int| 0 <= j < i ==> block_sizes@[j] == le32_at(data@, 60 + 4 * j),
            decreases count - i,
        {
            block_sizes.push(read_u32(data, 60 + 4 * i));
            i = i + 1;
        }
        proof {
            assert(block_sizes@ =~= bundle_block_sizes(data@));
        }
        Ok(
            Bundle {
                uncompressed_size,
                total_payload_size,
                first_file_encode,
                block_count,
                granularity,
                block_sizes,
                payload_start: 60 + 4 * count,
            },
        )
    }

    /// The decompressed size owed by chunk `i`.
    pub fn expected_chunk_size(&self, i: usize) -> (r: u64)
        requires
            i < self.block_count,
            self.block_count * (self.granularity as int) <= u64::MAX,
        ensures
            r == chunk_uncompressed_size(
                self.uncompressed_size,
                self.granularity,
                self.block_count as int,
                i as int,
            ),
    {
        if i < (self.block_count as usize) - 1 {
            self.granularity as u64
        } else {
            assert((i as u64) * (self.granularity as u64) <= (self.block_count as u64) * (
            self.granularity as u64)) by (nonlinear_arith)
                requires
                    i as u64 <= self.block_count as u64,
            ;
            let consumed = (i as u64) * (self.granularity as u64);
            if self.uncompressed_size >= consumed {
                self.uncompressed_size - consumed
            } else {
                0
            }
        }
    }

    /// Joins the externally decompressed chunks into the bundle's payload:
    /// fails with `DecompressionFailure` exactly when the number of chunks
    /// differs from the header's chunk count or the total length of the
    /// chunks differs from the declared decompressed size; otherwise the
    /// result is the chunks' bytes concatenated in order, of exactly that
    /// size.
    pub fn decompress(&self, chunks: &Vec<Vec<u8>>) -> (r: Result<Vec<u8>, ArchiveError>)
        ensures
            match r {
                Ok(out) => {
                    &&& chunks@.len() == self.block_count
                    &&& out@.len() == self.uncompressed_size
                    &&& out@ == chunks@.map_values(|c: Vec<u8>| c@).flatten()
                },
                Err(e) => {
                    &&& e == ArchiveError::DecompressionFailure
                    &&& (chunks@.len() != self.block_count || chunks@.map_values(
                        |c: Vec<u8>| c@,
                    ).flatten().len() != self.uncompressed_size)
                },
            },
    {
        let n = chunks.len();
        if n != (self.block_count as usize) {
            return Err(ArchiveError::DecompressionFailure);
        }
        let mut out: Vec<u8> = Vec::new();
        let mut i: usize = 0;
        proof {
            assert(chunks@.map_values(|c: Vec<u8>| c@).subrange(0, 0).flatten()
                =~= Seq::<u8>::empty());
            assert(out@ =~= chunks@.map_values(|c: Vec<u8>| c@).subrange(0, 0).flatten());
        }
        while i < n
            invariant
                n == chunks@.len(),
                i <= n,
                out@ == chunks@.map_values(|c: Vec<u8>| c@).subrange(0, i as int).flatten(),
            decreases n - i,
        {
            let ghost pre = out@;
            let chunk = &chunks[i];
            let m = chunk.len();
            let mut j: usize = 0;
            while j < m
                invariant
                    m == chunk@.len(),
                    j <= m,
                    out@ == pre + chunk@.subrange(0, j as int),
                decreases m - j,
            {
                out.push(chunk[j]);
                j = j + 1;
                proof {
                    assert(out@ =~= pre + chunk@.subrange(0, j as int));
                }
            }
            i = i + 1;
            proof {
                let views = chunks@.map_values(|c: Vec<u8>| c@);
                assert(chunk@.subrange(0, m as int) =~= chunk@);
                assert(views.subrange(0, i as int) =~= views.subrange(0, i - 1).push(chunk@));
                views.subrange(0, i - 1).lemma_flatten_push(chunk@);
                assert(out@ =~= views.subrange(0, i as int).flatten());
            }
        }
        proof {
            let views = chunks@.map_values(|c: Vec<u8>| c@);
            assert(views.subrange(0, n as int) =~= views);
        }
        if out.len() as u64 != self.uncompressed_size {
            return Err(ArchiveError::DecompressionFailure);
        }
        Ok(out)
    }
}

} // verus!
