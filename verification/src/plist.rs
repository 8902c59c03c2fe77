//! Random-access decoder for one posting-list chunk of the BM25 format.
//!
//! On disk a chunk is zstd-compressed. Decompressed, it packs for each token
//! a run of little-endian `(uid, score)` 64-bit pairs; a token's run begins
//! at its within-chunk byte offset and ends at the next token's offset, or at
//! the end of the chunk when no larger offset is given.

use vstd::prelude::*;

use crate::codec::{spec_le_u64s, zstd_inflate, zstd_decompress};
use crate::error::LavaError;

verus! {

/// Where the run starting at byte `o` ends: the smallest offset in `offs`
/// strictly greater than `o`, or `len` when there is none.
pub open spec fn spec_next_offset(offs: Seq<u64>, len: int, o: u64) -> int
    decreases offs.len(),
{
    if offs.len() == 0 {
        len
    } else {
        let rest = spec_next_offset(offs.drop_last(), len, o);
        if offs.last() > o && (offs.last() as int) < rest {
            offs.last() as int
        } else {
            rest
        }
    }
}

proof fn lemma_next_offset_bounds(offs: Seq<u64>, len: int, o: u64)
    requires
        forall|j: int| 0 <= j < offs.len() ==> (#[trigger] offs[j]) as int <= len,
        o as int <= len,
    ensures
        o as int <= spec_next_offset(offs, len, o) <= len,
    decreases offs.len(),
{
    if offs.len() > 0 {
        lemma_next_offset_bounds(offs.drop_last(), len, o);
    }
}

/// The postings run of the token whose within-chunk offset is `o`, read as
/// packed little-endian `u64`s from the decompressed chunk `data`.
pub open spec fn spec_token_run(data: Seq<u8>, offs: Seq<u64>, o: u64) -> Seq<u64> {
    spec_le_u64s(data.subrange(o as int, spec_next_offset(offs, data.len() as int, o)))
}

/// Every offset lies inside the chunk, and every run it starts is a whole
/// number of 16-byte pairs.
pub open spec fn spec_runs_ok(data: Seq<u8>, offs: Seq<u64>) -> bool {
    forall|i: int|
        0 <= i < offs.len() ==> ((#[trigger] offs[i]) as int <= data.len() && (spec_next_offset(
            offs,
            data.len() as int,
            offs[i],
        ) - offs[i]) % 16 == 0)
}

/// Decode one compressed posting-list chunk and slice it by the given
/// within-chunk offsets: `r[i]` is the `(uid, score)` run of the token whose
/// offset is `offsets[i]`. Fails, with a `Parse` error, exactly when the
/// chunk is not valid zstd, an offset points outside the chunk, or a run is
/// not a whole number of 16-byte pairs.
pub fn search_compressed(chunk: &[u8], offsets: &Vec<u64>) -> (r: Result<Vec<Vec<u64>>, LavaError>)
    ensures
        r matches Ok(rs) ==> {
            &&& zstd_inflate(chunk@) matches Some(data)
            &&& rs.len() == offsets.len()
            &&& forall|i: int|
                0 <= i < offsets.len() ==> (#[trigger] rs[i]@) == spec_token_run(
                    zstd_inflate(chunk@).unwrap(),
                    offsets@,
                    offsets[i],
                )
            &&& forall|i: int| 0 <= i < offsets.len() ==> (#[trigger] rs[i]@).len() % 2 == 0
        },
        r is Ok <==> (zstd_inflate(chunk@) matches Some(data) && spec_runs_ok(data, offsets@)),
        r matches Err(e) ==> e is Parse,
{
    let data = zstd_decompress(chunk)?;
    let n: usize = offsets.len();

    // every offset must lie inside the decompressed chunk
    for i in 0..n
        invariant
            n == offsets.len(),
            zstd_inflate(chunk@) == Some(data@),
            forall|j: int| 0 <= j < i ==> (#[trigger] offsets@[j]) as int <= data@.len(),
    {
        if offsets[i] > data.len() as u64 {
            proof {
                assert(!spec_runs_ok(data@, offsets@)) by {
                    assert(!((offsets@[i as int] as int) <= data@.len()));
                }
            }
            return Err(LavaError::data_corruption());
        }
    }

    let len: usize = data.len();
    let mut out: Vec<Vec<u64>> = Vec::new();
    for i in 0..n
        invariant
            n == offsets.len(),
            len == data@.len(),
            zstd_inflate(chunk@) == Some(data@),
            forall|j: int| 0 <= j < n ==> (#[trigger] offsets@[j]) as int <= data@.len(),
            out.len() == i,
            forall|j: int|
                0 <= j < i ==> (#[trigger] out[j]@) == spec_token_run(data@, offsets@, offsets@[j]),
            forall|j: int| 0 <= j < i ==> (#[trigger] out[j]@).len() % 2 == 0,
            forall|j: int|
                0 <= j < i ==> (spec_next_offset(offsets@, data@.len() as int, (#[trigger] offsets@[j]))
                    - offsets@[j]) % 16 == 0,
    {
        let o: u64 = offsets[i];
        // find where this token's run ends
        let mut next: usize = len;
        for j in 0..n
            invariant
                n == offsets.len(),
                len == data@.len(),
                forall|q: int| 0 <= q < n ==> (#[trigger] offsets@[q]) as int <= data@.len(),
                next as int == spec_next_offset(offsets@.take(j as int), len as int, o),
        {
            proof {
                assert(offsets@.take(j + 1).drop_last() =~= offsets@.take(j as int));
                assert(offsets@.take(j + 1).last() == offsets@[j as int]);
            }
            if offsets[j] > o && (offsets[j] as usize) < next {
                next = offsets[j] as usize;
            }
        }
        proof {
            assert(offsets@.take(n as int) =~= offsets@);
            lemma_next_offset_bounds(offsets@, len as int, o);
        }
        let run_bytes = (next - o as usize) as usize;
        if run_bytes % 16 != 0 {
            proof {
                assert(!spec_runs_ok(data@, offsets@)) by {
                    assert((spec_next_offset(offsets@, data@.len() as int, offsets@[i as int])
                        - offsets@[i as int]) % 16 != 0);
                }
            }
            return Err(LavaError::data_corruption());
        }
        let slice = vstd::slice::slice_subrange(data.as_slice(), o as usize, next);
        proof {
            assert(slice@.len() % 8 == 0);
        }
        let run = crate::codec::read_le_u64s(slice)?;
        proof {
            assert(run@.len() == run_bytes as int / 8);
            assert(run_bytes as int % 16 == 0 ==> (run_bytes as int / 8) % 2 == 0);
        }
        out.push(run);
    }
    proof {
        assert(spec_runs_ok(data@, offsets@));
    }
    Ok(out)
}

} // verus!
