//! FM-index rank blocks and the backward-search state machine.
//!
//! A rank block covers `FM_CHUNK_TOKS` positions of the BWT. Decoded, it is
//! a checkpoint header — the occurrences of every vocabulary token before
//! the block — followed by the block's token slice, so one block answers a
//! rank query for any position it covers. One backward-search step maps
//! each end of the suffix-array interval through `C[t] + rank_t(pos)`.

use vstd::prelude::*;

use crate::codec::spec_decompress_u64s;
use crate::error::LavaError;

verus! {

/// Positions covered by one FM rank block. Fixed by the format; an index is
/// only readable with the block size it was built with.
pub const FM_CHUNK_TOKS: u64 = 1024;

/// Occurrences of `t` in the first `p` positions of `s`.
pub open spec fn spec_count_tok(s: Seq<u64>, t: u64, p: int) -> nat
    decreases p,
{
    if p <= 0 {
        0
    } else {
        spec_count_tok(s, t, p - 1) + (if 0 <= p - 1 < s.len() && s[p - 1] == t {
            1nat
        } else {
            0nat
        })
    }
}

/// Occurrences of tokens smaller than `t` in the first `p` positions of `s`.
pub open spec fn spec_count_below(s: Seq<u64>, t: u64, p: int) -> nat
    decreases p,
{
    if p <= 0 {
        0
    } else {
        spec_count_below(s, t, p - 1) + (if 0 <= p - 1 < s.len() && s[p - 1] < t {
            1nat
        } else {
            0nat
        })
    }
}

/// A count over a prefix never exceeds the prefix length.
pub proof fn lemma_count_tok_le(s: Seq<u64>, t: u64, p: int)
    requires
        0 <= p,
    ensures
        spec_count_tok(s, t, p) <= p,
    decreases p,
{
    if p > 0 {
        lemma_count_tok_le(s, t, p - 1);
    }
}

/// Counting is monotone, and grows by at most the extra positions.
pub proof fn lemma_count_tok_range(s: Seq<u64>, t: u64, p1: int, p2: int)
    requires
        0 <= p1 <= p2,
    ensures
        spec_count_tok(s, t, p1) <= spec_count_tok(s, t, p2),
        spec_count_tok(s, t, p2) - spec_count_tok(s, t, p1) <= p2 - p1,
    decreases p2 - p1,
{
    if p1 < p2 {
        lemma_count_tok_range(s, t, p1, p2 - 1);
    }
}

/// Every position holds a token that is `< t`, `== t`, or `> t`, so the two
/// counts together never exceed the prefix.
pub proof fn lemma_counts_partition(s: Seq<u64>, t: u64, p: int)
    requires
        0 <= p,
    ensures
        spec_count_below(s, t, p) + spec_count_tok(s, t, p) <= p,
    decreases p,
{
    if p > 0 {
        lemma_counts_partition(s, t, p - 1);
    }
}

/// After one backward-search step the interval is still an interval, and it
/// is no wider than before: the width is the number of occurrences of `t`
/// inside the old interval, which the old width bounds. (The new interval is
/// in general *not* a sub-range of the old one — it lands in the `C[t]`
/// region of the suffix array — so containment is stated over widths.)
pub proof fn lemma_backward_step_monotone(bwt: Seq<u64>, c_t: int, t: u64, start: int, end: int)
    requires
        0 <= start <= end,
    ensures
        c_t + spec_count_tok(bwt, t, start) <= c_t + spec_count_tok(bwt, t, end),
        (c_t + spec_count_tok(bwt, t, end)) - (c_t + spec_count_tok(bwt, t, start)) <= end - start,
{
    lemma_count_tok_range(bwt, t, start, end);
}

/// When `C[t]` really counts the tokens below `t` in a BWT of length `n`,
/// both mapped positions stay within `[0, n]`: the narrowed interval never
/// leaves the suffix array.
pub proof fn lemma_backward_step_in_bounds(bwt: Seq<u64>, t: u64, pos: int)
    requires
        0 <= pos <= bwt.len(),
    ensures
        spec_count_below(bwt, t, bwt.len() as int) + spec_count_tok(bwt, t, pos) <= bwt.len(),
{
    lemma_count_tok_range(bwt, t, pos, bwt.len() as int);
    lemma_counts_partition(bwt, t, bwt.len() as int);
}

/// Count `token` in the first `pos` positions of the slice that starts at
/// `from` in a decoded block.
fn slice_rank(chunk: &Vec<u64>, from: usize, token: u64, pos: usize) -> (r: u64)
    requires
        from + pos <= chunk@.len(),
    ensures
        r == spec_count_tok(chunk@.skip(from as int), token, pos as int),
{
    let total: usize = chunk.len();
    let mut count: u64 = 0;
    for i in 0..pos
        invariant
            from + pos <= total,
            total == chunk@.len(),
            count == spec_count_tok(chunk@.skip(from as int), token, i as int),
            count <= i,
    {
        proof {
            lemma_count_tok_le(chunk@.skip(from as int), token, i as int);
            assert(chunk@.skip(from as int)[i as int] == chunk@[from + i]);
        }
        if chunk[from + i] == token {
            count = count + 1;
        }
    }
    count
}

/// A decoded FM rank block: a checkpoint header of `vocab` integers — how
/// often each token occurs before the block — followed by the block's BWT
/// slice. The rank of `t` at a position inside the block is the checkpoint
/// plus a count over the slice prefix.
pub open spec fn spec_block_rank(chunk: Seq<u64>, vocab: int, t: u64, local: int) -> int {
    chunk[t as int] + spec_count_tok(chunk.skip(vocab), t, local)
}

/// The rank query of one block: `None` when the block is too short for its
/// header or the position, the token has no checkpoint, or the sum leaves
/// `u64`.
pub open spec fn spec_block_rank_ok(chunk: Seq<u64>, vocab: int, t: u64, local: int) -> bool {
    &&& (t as int) < vocab
    &&& vocab <= chunk.len()
    &&& local <= chunk.len() - vocab
    &&& spec_block_rank(chunk, vocab, t, local) <= u64::MAX
}

/// `FMChunk::search`: rank of `token` at in-block position `local`, read
/// from a decoded block whose header is `vocab` entries long.
pub fn block_rank(chunk: &Vec<u64>, vocab: usize, token: u64, local: usize) -> (r: Result<
    u64,
    LavaError,
>)
    ensures
        r matches Ok(v) ==> spec_block_rank_ok(chunk@, vocab as int, token, local as int) && v
            == spec_block_rank(chunk@, vocab as int, token, local as int),
        r is Err <==> !spec_block_rank_ok(chunk@, vocab as int, token, local as int),
        r matches Err(e) ==> e is Parse,
{
    if token >= vocab as u64 || vocab > chunk.len() || local > chunk.len() - vocab {
        return Err(LavaError::data_corruption());
    }
    let within = slice_rank(chunk, vocab, token, local);
    proof {
        lemma_count_tok_le(chunk@.skip(vocab as int), token, local as int);
    }
    let base = chunk[token as usize];
    if base > u64::MAX - within {
        return Err(LavaError::data_corruption());
    }
    Ok(base + within)
}

/// The decoded token slice of rank block `ci`, read straight out of the
/// file bytes: the block's byte span from the offsets table, inflated and
/// decoded as a `u64` table. `None` when the span or its decode is bad.
pub open spec fn spec_chunk_toks(file: Seq<u8>, fm_offsets: Seq<u64>, ci: int) -> Option<Seq<u64>> {
    if 0 <= ci && ci + 1 < fm_offsets.len() && fm_offsets[ci] <= fm_offsets[ci + 1] && fm_offsets[ci
        + 1] <= file.len() {
        spec_decompress_u64s(file.subrange(fm_offsets[ci] as int, fm_offsets[ci + 1] as int))
    } else {
        None
    }
}

/// One interval end mapped through `C[t] + rank_t(pos)` against an already
/// decoded block, with every way the data can defeat it: a block too short
/// for its header or the position, a token outside the tables, or a sum
/// that leaves `u64`.
pub open spec fn spec_lf_step(counts: Seq<u64>, chunk: Seq<u64>, t: u64, pos: u64) -> Option<u64> {
    let local = pos as int % FM_CHUNK_TOKS as int;
    let vocab = counts.len() as int;
    if spec_block_rank_ok(chunk, vocab, t, local) && counts[t as int] + spec_block_rank(
        chunk,
        vocab,
        t,
        local,
    ) <= u64::MAX {
        Some((counts[t as int] + spec_block_rank(chunk, vocab, t, local)) as u64)
    } else {
        None
    }
}

/// Map one interval end through the LF step, against the rank block that
/// covers `pos`, already fetched and decoded: the `C` table entry plus the
/// block's rank answer. This is the whole per-step computation a remote
/// reader needs once it holds the block.
pub fn lf_step_from_chunk(counts: &Vec<u64>, chunk: &Vec<u64>, t: u64, pos: u64) -> (r: Result<
    u64,
    LavaError,
>)
    ensures
        r matches Ok(v) ==> spec_lf_step(counts@, chunk@, t, pos) == Some(v),
        r is Err <==> spec_lf_step(counts@, chunk@, t, pos) is None,
        r matches Err(e) ==> e is Parse,
{
    let local: u64 = pos % FM_CHUNK_TOKS;
    let rank = block_rank(chunk, counts.len(), t, local as usize)?;
    let base = counts[t as usize];
    if base > u64::MAX - rank {
        return Err(LavaError::data_corruption());
    }
    Ok(base + rank)
}

/// One end of the interval mapped through `C[t] + rank_t(pos)`, with every
/// way the file can defeat the read: a missing block span, a bad decode, a
/// block too short for its header or the in-block position, a token outside
/// the tables, or a sum that leaves `u64`.
pub open spec fn spec_lf_pos(file: Seq<u8>, counts: Seq<u64>, fm_offsets: Seq<u64>, t: u64, pos: u64) -> Option<u64> {
    let ci = pos as int / FM_CHUNK_TOKS as int;
    match spec_chunk_toks(file, fm_offsets, ci) {
        Some(toks) => spec_lf_step(counts, toks, t, pos),
        None => None,
    }
}

/// Map one interval end through the LF step, reading the rank block out of
/// the in-memory file bytes.
pub fn lf_pos(file: &Vec<u8>, counts: &Vec<u64>, fm_offsets: &Vec<u64>, t: u64, pos: u64) -> (r:
    Result<u64, LavaError>)
    ensures
        r matches Ok(v) ==> spec_lf_pos(file@, counts@, fm_offsets@, t, pos) == Some(v),
        r is Err <==> spec_lf_pos(file@, counts@, fm_offsets@, t, pos) is None,
        r matches Err(e) ==> e is Parse,
{
    let ci: u64 = pos / FM_CHUNK_TOKS;
    if ci + 1 >= fm_offsets.len() as u64 {
        return Err(LavaError::data_corruption());
    }
    let lo: u64 = fm_offsets[ci as usize];
    let hi: u64 = fm_offsets[ci as usize + 1];
    if lo > hi || hi > file.len() as u64 {
        return Err(LavaError::data_corruption());
    }
    let span = vstd::slice::slice_subrange(file.as_slice(), lo as usize, hi as usize);
    let toks = crate::codec::decompress_u64_vec(span)?;
    lf_step_from_chunk(counts, &toks, t, pos)
}

/// One whole backward-search step: both interval ends mapped through the LF
/// step for token `t`.
pub open spec fn spec_backward_step(
    file: Seq<u8>,
    counts: Seq<u64>,
    fm_offsets: Seq<u64>,
    t: u64,
    start: u64,
    end: u64,
) -> Option<(u64, u64)> {
    match (spec_lf_pos(file, counts, fm_offsets, t, start), spec_lf_pos(
        file,
        counts,
        fm_offsets,
        t,
        end,
    )) {
        (Some(s), Some(e)) => Some((s, e)),
        _ => None,
    }
}

/// The backward search over the last `i` consumed tokens of `q` (processed
/// right to left), starting from `[start, end)`. It stops as soon as the
/// interval empties; `None` means a step could not be read.
pub open spec fn spec_backward_search(
    file: Seq<u8>,
    counts: Seq<u64>,
    fm_offsets: Seq<u64>,
    q: Seq<u64>,
    i: int,
    start: u64,
    end: u64,
) -> Option<(u64, u64)>
    decreases i,
{
    if i <= 0 || start >= end {
        Some((start, end))
    } else {
        match spec_backward_step(file, counts, fm_offsets, q[i - 1], start, end) {
            Some((s, e)) => spec_backward_search(file, counts, fm_offsets, q, i - 1, s, e),
            None => None,
        }
    }
}

/// Counting a prefix only reads the prefix.
proof fn lemma_count_tok_prefix(s1: Seq<u64>, s2: Seq<u64>, t: u64, p: int)
    requires
        0 <= p <= s1.len(),
        p <= s2.len(),
        forall|i: int| 0 <= i < p ==> s1[i] == s2[i],
    ensures
        spec_count_tok(s1, t, p) == spec_count_tok(s2, t, p),
    decreases p,
{
    if p > 0 {
        lemma_count_tok_prefix(s1, s2, t, p - 1);
    }
}

/// A count splits at any point of the prefix.
proof fn lemma_count_tok_split(s: Seq<u64>, t: u64, a: int, p: int)
    requires
        0 <= a <= p <= s.len(),
    ensures
        spec_count_tok(s, t, p) == spec_count_tok(s, t, a) + spec_count_tok(s.skip(a), t, p - a),
    decreases p - a,
{
    if p > a {
        lemma_count_tok_split(s, t, a, p - 1);
        assert(s.skip(a)[p - 1 - a] == s[p - 1]);
    }
}

/// The decoded shape rank block `ci` must have when the file really stores
/// the BWT `bwt`: the checkpoint header — each token's occurrences before
/// the block — then the block's slice of the BWT.
pub open spec fn spec_block_model(bwt: Seq<u64>, vocab: int, ci: int) -> Seq<u64> {
    let lo = ci * FM_CHUNK_TOKS as int;
    let hi = if lo + FM_CHUNK_TOKS as int <= bwt.len() {
        lo + FM_CHUNK_TOKS as int
    } else {
        bwt.len() as int
    };
    Seq::new(vocab as nat, |t: int| spec_count_tok(bwt, t as u64, lo) as u64) + bwt.subrange(lo, hi)
}

/// The file's tables really describe the BWT `bwt`: the `C` table counts
/// its smaller tokens, and every rank block a position of `bwt` can land in
/// decodes to that block's checkpoints and slice.
pub open spec fn spec_file_models_bwt(
    file: Seq<u8>,
    counts: Seq<u64>,
    fm_offsets: Seq<u64>,
    bwt: Seq<u64>,
) -> bool {
    &&& bwt.len() <= u64::MAX
    &&& forall|t: int|
        0 <= t < counts.len() ==> counts[t] == spec_count_below(bwt, t as u64, bwt.len() as int)
    &&& forall|ci: int|
        0 <= ci <= bwt.len() as int / FM_CHUNK_TOKS as int ==> spec_chunk_toks(file, fm_offsets, ci)
            == Some(spec_block_model(bwt, counts.len() as int, ci))
}

/// Over a file that stores `bwt`, the LF step reads back exactly the
/// mathematical rank: `C[t] + |{ i < pos : bwt[i] == t }|`, and that value
/// never leaves `[0, |bwt|]`.
pub proof fn lemma_lf_pos_models(
    file: Seq<u8>,
    counts: Seq<u64>,
    fm_offsets: Seq<u64>,
    bwt: Seq<u64>,
    t: u64,
    pos: u64,
)
    requires
        spec_file_models_bwt(file, counts, fm_offsets, bwt),
        (t as int) < counts.len(),
        pos as int <= bwt.len(),
    ensures
        counts[t as int] + spec_count_tok(bwt, t, pos as int) <= bwt.len(),
        spec_lf_pos(file, counts, fm_offsets, t, pos) == Some(
            (counts[t as int] + spec_count_tok(bwt, t, pos as int)) as u64,
        ),
{
    let c = FM_CHUNK_TOKS as int;
    let ci = pos as int / c;
    let local = pos as int % c;
    let vocab = counts.len() as int;
    vstd::arithmetic::div_mod::lemma_fundamental_div_mod(pos as int, c);
    assert(ci <= bwt.len() as int / c) by {
        vstd::arithmetic::div_mod::lemma_div_is_ordered(pos as int, bwt.len() as int, c);
    }
    let toks = spec_block_model(bwt, vocab, ci);
    assert(spec_chunk_toks(file, fm_offsets, ci) == Some(toks));
    let lo = ci * c;
    let hi = if lo + c <= bwt.len() {
        lo + c
    } else {
        bwt.len() as int
    };
    assert(0 <= ci) by {
        vstd::arithmetic::div_mod::lemma_div_pos_is_pos(pos as int, c);
    }
    assert(0 <= lo) by {
        vstd::arithmetic::mul::lemma_mul_nonnegative(ci, c);
    }
    assert(pos == lo + local && 0 <= local < c);
    assert(lo <= bwt.len());
    assert(local <= hi - lo);
    // the checkpoint carries the count before the block
    lemma_count_tok_le(bwt, t, lo);
    assert(toks[t as int] == spec_count_tok(bwt, t, lo) as u64);
    // the slice carries the rest
    assert(toks.skip(vocab) =~= bwt.subrange(lo, hi));
    lemma_count_tok_prefix(bwt.subrange(lo, hi), bwt.skip(lo), t, local);
    lemma_count_tok_split(bwt, t, lo, pos as int);
    assert(spec_count_tok(toks.skip(vocab), t, local) == spec_count_tok(bwt, t, pos as int)
        - spec_count_tok(bwt, t, lo));
    // the sum stays within the BWT
    lemma_count_tok_range(bwt, t, pos as int, bwt.len() as int);
    lemma_counts_partition(bwt, t, bwt.len() as int);
    assert(spec_block_rank_ok(toks, vocab, t, local));
    assert(spec_block_rank(toks, vocab, t, local) == spec_count_tok(bwt, t, pos as int));
}

/// Over a file that stores `bwt`, one backward-search step always succeeds
/// on an interval of the suffix array, keeps `start <= end`, never widens
/// the interval, and never leaves `[0, |bwt|]` — the interval stays an
/// interval through every iteration of the search.
pub proof fn lemma_modeled_backward_step(
    file: Seq<u8>,
    counts: Seq<u64>,
    fm_offsets: Seq<u64>,
    bwt: Seq<u64>,
    t: u64,
    start: u64,
    end: u64,
)
    requires
        spec_file_models_bwt(file, counts, fm_offsets, bwt),
        (t as int) < counts.len(),
        start <= end,
        end as int <= bwt.len(),
    ensures
        spec_backward_step(file, counts, fm_offsets, t, start, end) matches Some(iv) && {
            &&& iv.0 <= iv.1
            &&& iv.1 as int - iv.0 as int <= end as int - start as int
            &&& iv.1 as int <= bwt.len()
        },
{
    lemma_lf_pos_models(file, counts, fm_offsets, bwt, t, start);
    lemma_lf_pos_models(file, counts, fm_offsets, bwt, t, end);
    lemma_count_tok_range(bwt, t, start as int, end as int);
}

/// Over a file that stores `bwt`, the whole backward search never fails to
/// read, and at every iteration the interval stays an interval of the
/// suffix array that is no wider than the one before it — so also no wider
/// than the interval it started from.
pub proof fn lemma_modeled_backward_search(
    file: Seq<u8>,
    counts: Seq<u64>,
    fm_offsets: Seq<u64>,
    bwt: Seq<u64>,
    q: Seq<u64>,
    i: int,
    start: u64,
    end: u64,
)
    requires
        spec_file_models_bwt(file, counts, fm_offsets, bwt),
        forall|j: int| 0 <= j < q.len() ==> ((#[trigger] q[j]) as int) < counts.len(),
        0 <= i <= q.len(),
        start <= end,
        end as int <= bwt.len(),
    ensures
        spec_backward_search(file, counts, fm_offsets, q, i, start, end) matches Some(iv) && {
            &&& iv.0 <= iv.1
            &&& iv.1 as int <= bwt.len()
            &&& iv.1 as int - iv.0 as int <= end as int - start as int
        },
    decreases i,
{
    if i > 0 && start < end {
        lemma_modeled_backward_step(file, counts, fm_offsets, bwt, q[i - 1], start, end);
        let iv = spec_backward_step(file, counts, fm_offsets, q[i - 1], start, end).unwrap();
        lemma_modeled_backward_search(file, counts, fm_offsets, bwt, q, i - 1, iv.0, iv.1);
    }
}

/// Over a file that stores `bwt`, searching a single token finds exactly
/// its band of the suffix array: the interval starts at `C[t]` and its
/// width is the number of occurrences of the token, so no occurrence is
/// ever missed and nothing else is ever matched at this level.
pub proof fn lemma_single_token_interval(
    file: Seq<u8>,
    counts: Seq<u64>,
    fm_offsets: Seq<u64>,
    bwt: Seq<u64>,
    t: u64,
)
    requires
        spec_file_models_bwt(file, counts, fm_offsets, bwt),
        (t as int) < counts.len(),
    ensures
        spec_backward_search(file, counts, fm_offsets, seq![t], 1, 0, bwt.len() as u64) == Some(
            (
                spec_count_below(bwt, t, bwt.len() as int) as u64,
                (spec_count_below(bwt, t, bwt.len() as int) + spec_count_tok(
                    bwt,
                    t,
                    bwt.len() as int,
                )) as u64,
            ),
        ),
{
    let n = bwt.len() as u64;
    assert(counts[t as int] == spec_count_below(bwt, t, bwt.len() as int));
    if n > 0 {
        lemma_lf_pos_models(file, counts, fm_offsets, bwt, t, 0);
        lemma_lf_pos_models(file, counts, fm_offsets, bwt, t, n);
        lemma_counts_partition(bwt, t, bwt.len() as int);
        let s = (counts[t as int] + spec_count_tok(bwt, t, 0)) as u64;
        let e = (counts[t as int] + spec_count_tok(bwt, t, bwt.len() as int)) as u64;
        assert(seq![t][0] == t);
        assert(spec_backward_step(file, counts, fm_offsets, t, 0, n) == Some((s, e)));
        assert(spec_backward_search(file, counts, fm_offsets, seq![t], 0, s, e) == Some((s, e)));
        assert(spec_backward_search(file, counts, fm_offsets, seq![t], 1, 0, n) == Some((s, e)));
    }
}

/// Run the classical FM backward search for `query` over one file held in
/// memory: start from `[0, n)` and narrow once per query token, last token
/// first, stopping early on an empty interval.
pub fn backward_search(
    file: &Vec<u8>,
    counts: &Vec<u64>,
    fm_offsets: &Vec<u64>,
    query: &Vec<u64>,
    n: u64,
) -> (r: Result<(u64, u64), LavaError>)
    ensures
        r matches Ok(iv) ==> spec_backward_search(
            file@,
            counts@,
            fm_offsets@,
            query@,
            query@.len() as int,
            0,
            n,
        ) == Some(iv),
        r is Err <==> spec_backward_search(
            file@,
            counts@,
            fm_offsets@,
            query@,
            query@.len() as int,
            0,
            n,
        ) is None,
        r matches Err(e) ==> e is Parse,
{
    let m: usize = query.len();
    let mut start: u64 = 0;
    let mut end: u64 = n;
    let mut i: usize = m;
    while i > 0 && start < end
        invariant
            i <= m,
            m == query@.len(),
            spec_backward_search(file@, counts@, fm_offsets@, query@, m as int, 0, n)
                == spec_backward_search(file@, counts@, fm_offsets@, query@, i as int, start, end),
        decreases i,
    {
        let t: u64 = query[i - 1];
        let s2 = match lf_pos(file, counts, fm_offsets, t, start) {
            Ok(v) => v,
            Err(e) => {
                return Err(e);
            },
        };
        let e2 = match lf_pos(file, counts, fm_offsets, t, end) {
            Ok(v) => v,
            Err(e) => {
                return Err(e);
            },
        };
        start = s2;
        end = e2;
        i = i - 1;
    }
    Ok((start, end))
}

} // verus!
