use vstd::prelude::*;

use vstd::arithmetic::div_mod::{
    lemma_fundamental_div_mod, lemma_fundamental_div_mod_converse, lemma_mod_bound,
};
use vstd::arithmetic::mul::lemma_mul_inequality;

verus! {

/// A contiguous range of file indices assigned to one worker: the files
/// with indices `start <= i < end`.
#[derive(PartialEq, Eq, Structural, Clone, Copy, Debug)]
pub struct Chunk {
    pub start: usize,
    pub end: usize,
}

/// The per-worker chunk size: the number of files divided by the worker
/// count, rounded up.
pub open spec fn chunk_size(total: nat, workers: nat) -> int
    recommends
        workers > 0,
{
    (total + workers - 1) / (workers as int)
}

/// What it means for a list of chunks to partition the file indices
/// `0..total`: no chunk is empty, the first chunk starts at zero, each chunk
/// starts where the previous one ends, and the last chunk ends at `total`.
/// Zero files yield no chunks at all.
pub open spec fn is_partition(chunks: Seq<Chunk>, total: nat) -> bool {
    &&& (total == 0 ==> chunks.len() == 0)
    &&& (total > 0 ==> chunks.len() > 0)
    &&& (chunks.len() > 0 ==> chunks[0].start == 0 && chunks[chunks.len() - 1].end == total)
    &&& forall|i: int| 0 <= i < chunks.len() ==> (#[trigger] chunks[i]).start < chunks[i].end
    &&& forall|i: int|
        0 <= i < chunks.len() - 1 ==> (#[trigger] chunks[i]).end == chunks[i + 1].start
}

/// Divides the file indices `0..total` into contiguous, near-equal chunks of
/// `chunk_size(total, workers)` indices each (the last chunk possibly
/// shorter), at most one per worker, in the original order. Zero files yield
/// no chunks.
#[verifier::loop_isolation(false)]
pub fn partition(total: usize, workers: usize) -> (chunks: Vec<Chunk>)
    requires
        workers >= 1,
    ensures
        is_partition(chunks@, total as nat),
        chunks@.len() <= workers,
        forall|i: int|
            0 <= i < chunks@.len() ==> (#[trigger] chunks@[i]).start == i * chunk_size(
                total as nat,
                workers as nat,
            ) && chunks@[i].end == (if (i + 1) * chunk_size(total as nat, workers as nat)
                <= total {
                (i + 1) * chunk_size(total as nat, workers as nat)
            } else {
                total as int
            }),
{
    let mut chunks: Vec<Chunk> = Vec::new();
    if total == 0 {
        return chunks;
    }
    let c = 1 + (total - 1) / workers;
    proof {
        let w = workers as int;
        let a = total - 1 as int;
        lemma_fundamental_div_mod(a, w);
        lemma_mod_bound(a, w);
        assert((a / w + 1) * w + a % w == a + w) by (nonlinear_arith)
            requires
                a == w * (a / w) + a % w,
        ;
        lemma_fundamental_div_mod_converse(a + w, w, a / w + 1, a % w);
        assert(c == chunk_size(total as nat, workers as nat));
        // the chunk size covers all files within `workers` chunks
        lemma_fundamental_div_mod(a + w, w);
        lemma_mod_bound(a + w, w);
        assert(workers * c >= total) by (nonlinear_arith)
            requires
                a + w == w * ((a + w) / w) + (a + w) % w,
                0 <= (a + w) % w < w,
                c == (a + w) / w,
                a == total - 1,
                w == workers,
        ;
    }
    let ghost csz = c as int;
    let mut start: usize = 0;
    let mut i: usize = 0;
    while start < total
        invariant
            c == chunk_size(total as nat, workers as nat),
            c >= 1,
            workers * c >= total,
            i <= workers,
            chunks@.len() == i,
            start == (if i * csz <= total {
                i * csz
            } else {
                total as int
            }),
            i > 0 ==> chunks@[i - 1].end == start,
            forall|p: int|
                0 <= p < i ==> (#[trigger] chunks@[p]).start == p * csz && p * csz < total
                    && chunks@[p].end == (if (p + 1) * csz <= total {
                    (p + 1) * csz
                } else {
                    total as int
                }),
        decreases total - start,
    {
        proof {
            assert(i * csz < total);
            assert(i < workers) by {
                if i >= workers {
                    lemma_mul_inequality(workers as int, i as int, csz);
                }
            }
            assert((i + 1) * csz == i * csz + csz) by (nonlinear_arith);
        }
        let end = if c < total - start {
            start + c
        } else {
            total
        };
        chunks.push(Chunk { start, end });
        start = end;
        i = i + 1;
    }
    proof {
        assert(chunks@[0].start == 0 * csz);
        assert(0 * csz == 0) by (nonlinear_arith);
        assert(forall|p: int|
            0 <= p < chunks@.len() - 1 ==> (#[trigger] chunks@[p]).end == chunks@[p + 1].start);
        assert forall|p: int| 0 <= p < chunks@.len() implies (#[trigger] chunks@[p]).start
            < chunks@[p].end by {
            assert((p + 1) * csz == p * csz + csz) by (nonlinear_arith);
        }
    }
    chunks
}

/// Between two chunks of a partition, all indices of the earlier chunk lie
/// before all indices of the later one.
pub proof fn lemma_chunks_ordered(chunks: Seq<Chunk>, total: nat, i: int, j: int)
    requires
        is_partition(chunks, total),
        0 <= i < j < chunks.len(),
    ensures
        chunks[i].end <= chunks[j].start,
    decreases j - i,
{
    if j == i + 1 {
    } else {
        lemma_chunks_ordered(chunks, total, i, j - 1);
    }
}

/// Every chunk of a partition lies within the file indices `0..total`.
proof fn lemma_chunk_in_bounds(chunks: Seq<Chunk>, total: nat, i: int)
    requires
        is_partition(chunks, total),
        0 <= i < chunks.len(),
    ensures
        chunks[i].end <= total,
{
    if i < chunks.len() - 1 {
        lemma_chunks_ordered(chunks, total, i, chunks.len() - 1);
    }
}

/// Whether chunk `i` of a partition holds the file index `k`.
pub open spec fn chunk_holds(chunks: Seq<Chunk>, i: int, k: int) -> bool {
    0 <= i < chunks.len() && chunks[i].start <= k < chunks[i].end
}

/// Whether some chunk of a partition holds the file index `k`.
pub open spec fn covered(chunks: Seq<Chunk>, k: int) -> bool {
    exists|i: int| chunk_holds(chunks, i, k)
}

/// From any chunk whose start lies at or below a file index, some chunk at
/// or after it contains that index.
proof fn lemma_find_chunk(chunks: Seq<Chunk>, total: nat, k: int, i: int)
    requires
        is_partition(chunks, total),
        0 <= k < total,
        0 <= i < chunks.len(),
        chunks[i].start <= k,
    ensures
        covered(chunks, k),
    decreases chunks.len() - i,
{
    if k < chunks[i].end {
        assert(chunk_holds(chunks, i, k));
    } else {
        assert(i < chunks.len() - 1) by {
            if i == chunks.len() - 1 {
                assert(chunks[i].end == total);
            }
        }
        lemma_find_chunk(chunks, total, k, i + 1);
    }
}

/// Partition coverage: every file index below `total` lies in exactly one
/// chunk, and no chunk holds an index outside `0..total`. For `total == 0`
/// there are no chunks.
pub proof fn lemma_partition_coverage(chunks: Seq<Chunk>, total: nat)
    requires
        is_partition(chunks, total),
    ensures
        forall|k: int| 0 <= k < total ==> #[trigger] covered(chunks, k),
        forall|i: int, j: int, k: int|
            #[trigger] chunk_holds(chunks, i, k) && #[trigger] chunk_holds(chunks, j, k) ==> i
                == j,
        forall|i: int, k: int| #[trigger] chunk_holds(chunks, i, k) ==> 0 <= k < total,
{
    assert forall|k: int| 0 <= k < total implies #[trigger] covered(chunks, k) by {
        lemma_find_chunk(chunks, total, k, 0);
    }
    assert forall|i: int, j: int, k: int|
        #[trigger] chunk_holds(chunks, i, k) && #[trigger] chunk_holds(chunks, j, k) implies i
        == j by {
        if i < j {
            lemma_chunks_ordered(chunks, total, i, j);
        }
        if j < i {
            lemma_chunks_ordered(chunks, total, j, i);
        }
    }
    assert forall|i: int, k: int| #[trigger] chunk_holds(chunks, i, k) implies 0 <= k < total by {
        lemma_chunk_in_bounds(chunks, total, i);
    }
}

} // verus!
