//! Per-file view of the BM25 index format: the three-integer trailer, the
//! posting-list offsets table with its invariants, chunk lookup by binary
//! search over the term-dictionary boundaries, grouping of query tokens by
//! chunk, and extraction of scored postings.

use vstd::prelude::*;

use crate::codec::{spec_le_u64s, spec_le_u64_at};
use crate::error::LavaError;

verus! {

/// The three little-endian integers at the tail of a BM25 index file.
pub struct Bm25Trailer {
    /// Byte offset of the zstd+bincode term dictionary.
    pub term_dict_offset: u64,
    /// Byte offset of the zstd+bincode posting-list offsets table.
    pub plist_offsets_offset: u64,
    /// Documents indexed by this file.
    pub num_documents: u64,
}

/// Parse the last 24 bytes of a BM25 file. The two table offsets must fall
/// inside the payload, in order; anything else is a malformed trailer.
pub fn parse_bm25_trailer(bytes: &[u8], file_size: u64) -> (r: Result<Bm25Trailer, LavaError>)
    ensures
        r matches Ok(t) ==> {
            &&& bytes@.len() == 24
            &&& file_size >= 24
            &&& t.term_dict_offset == spec_le_u64_at(bytes@, 0)
            &&& t.plist_offsets_offset == spec_le_u64_at(bytes@, 8)
            &&& t.num_documents == spec_le_u64_at(bytes@, 16)
            &&& t.term_dict_offset <= t.plist_offsets_offset <= file_size - 24
        },
        r is Err <==> !{
            &&& bytes@.len() == 24
            &&& file_size >= 24
            &&& spec_le_u64_at(bytes@, 0) <= spec_le_u64_at(bytes@, 8)
            &&& spec_le_u64_at(bytes@, 8) <= file_size - 24
        },
        r matches Err(e) ==> e is Parse,
{
    if bytes.len() != 24 || file_size < 24 {
        return Err(LavaError::Parse("malformed trailer".to_owned()));
    }
    let words = crate::codec::read_le_u64s(bytes)?;
    let term_dict_offset = words[0];
    let plist_offsets_offset = words[1];
    let num_documents = words[2];
    if term_dict_offset > plist_offsets_offset || plist_offsets_offset > file_size - 24 {
        return Err(LavaError::Parse("malformed trailer".to_owned()));
    }
    Ok(Bm25Trailer { term_dict_offset, plist_offsets_offset, num_documents })
}

/// The decoded posting-list offsets table of one BM25 file. Its even-length
/// vector splits in two equal halves: byte offsets of the posting chunks
/// (strictly increasing, ending in a sentinel), then the term-dictionary
/// boundaries (non-decreasing first token id of each chunk).
pub struct PlistTables {
    words: Vec<u64>,
    num_chunks: usize,
}

impl PlistTables {
    /// The raw table vector.
    pub closed spec fn words(self) -> Seq<u64> {
        self.words@
    }

    /// The first half: chunk byte offsets with a final sentinel.
    pub closed spec fn offsets(self) -> Seq<u64> {
        self.words@.take(self.num_chunks as int)
    }

    /// The second half: the first token id stored in each chunk.
    pub closed spec fn boundaries(self) -> Seq<u64> {
        self.words@.skip(self.num_chunks as int)
    }

    /// The invariants the format promises of a decoded table.
    pub open spec fn wf(self) -> bool {
        &&& self.words().len() == 2 * self.num_chunks()
        &&& self.num_chunks() >= 1
        &&& forall|i: int, j: int|
            0 <= i < j < self.num_chunks() ==> self.offsets()[i] < self.offsets()[j]
        &&& forall|i: int, j: int|
            0 <= i < j < self.num_chunks() ==> self.boundaries()[i] <= self.boundaries()[j]
    }

    pub closed spec fn num_chunks(self) -> int {
        self.num_chunks as int
    }

    /// Validate a freshly decoded offsets table: even length, at least one
    /// chunk, offsets strictly increasing, boundaries non-decreasing.
    /// Everything else is the "data corruption" parse error.
    pub fn new(words: Vec<u64>) -> (r: Result<PlistTables, LavaError>)
        ensures
            r matches Ok(t) ==> t.wf() && t.words() == words@ && t.num_chunks() == words@.len()
                / 2,
            r is Err <==> !{
                &&& words@.len() % 2 == 0
                &&& words@.len() >= 2
                &&& forall|i: int, j: int|
                    0 <= i < j < words@.len() / 2 ==> words@[i] < words@[j]
                &&& forall|i: int, j: int|
                    words@.len() / 2 <= i < j < words@.len() ==> words@[i] <= words@[j]
            },
            r matches Err(e) ==> e matches LavaError::Parse(m) && m@ == "data corruption"@,
    {
        if words.len() % 2 != 0 || words.len() < 2 {
            return Err(LavaError::data_corruption());
        }
        let num_chunks: usize = words.len() / 2;
        // chunk byte offsets must strictly increase
        for i in 0..num_chunks - 1
            invariant
                2 * num_chunks == words@.len(),
                num_chunks >= 1,
                forall|a: int, b: int| 0 <= a < b <= i ==> words@[a] < words@[b],
        {
            if words[i] >= words[i + 1] {
                return Err(LavaError::data_corruption());
            }
        }
        // term-dictionary boundaries must be non-decreasing
        for i in num_chunks..2 * num_chunks - 1
            invariant
                2 * num_chunks == words@.len(),
                num_chunks >= 1,
                forall|a: int, b: int| num_chunks <= a < b <= i ==> words@[a] <= words@[b],
        {
            if words[i] > words[i + 1] {
                return Err(LavaError::data_corruption());
            }
        }
        let t = PlistTables { words, num_chunks };
        proof {
            assert forall|i: int, j: int| 0 <= i < j < t.num_chunks() implies t.offsets()[i]
                < t.offsets()[j] by {}
            assert forall|i: int, j: int| 0 <= i < j < t.num_chunks() implies t.boundaries()[i]
                <= t.boundaries()[j] by {
                assert(t.boundaries()[i] == t.words()[t.num_chunks() + i]);
                assert(t.boundaries()[j] == t.words()[t.num_chunks() + j]);
            }
        }
        Ok(t)
    }

    /// How many posting chunks the table describes (sentinel included).
    pub fn chunk_count(&self) -> (n: usize)
        ensures
            n == self.num_chunks(),
    {
        self.num_chunks
    }

    /// The byte range `[start, end)` the table gives for chunk `chunk_id`:
    /// the original layout reads the full vector, so for the last chunk the
    /// "end" word is the first boundary entry.
    pub fn chunk_byte_range(&self, chunk_id: usize) -> (r: (u64, u64))
        requires
            self.wf(),
            chunk_id < self.num_chunks(),
        ensures
            r.0 == self.words()[chunk_id as int],
            r.1 == self.words()[chunk_id + 1],
    {
        (self.words[chunk_id], self.words[chunk_id + 1])
    }

    /// The first term-dictionary boundary: the smallest token id any chunk
    /// stores.
    pub fn first_boundary(&self) -> (b: u64)
        requires
            self.wf(),
        ensures
            b == self.boundaries()[0],
    {
        self.words[self.num_chunks]
    }

    /// Largest boundary index whose first token id is at most `t`, found by
    /// binary search; with it, `t`'s distance into that chunk. A token below
    /// the first boundary has no chunk.
    pub fn locate_token(&self, t: u64) -> (r: (usize, u64))
        requires
            self.wf(),
            self.boundaries()[0] <= t,
        ensures
            r.0 < self.num_chunks(),
            self.boundaries()[r.0 as int] <= t,
            forall|j: int| r.0 < j < self.num_chunks() ==> self.boundaries()[j] > t,
            r.1 == t - self.boundaries()[r.0 as int],
    {
        let nc: usize = self.num_chunks;
        let total: usize = self.words.len();
        let mut lo: usize = 0;
        let mut hi: usize = nc;
        // invariant: boundaries[lo - 1] <= t < boundaries[hi] (virtually)
        while hi - lo > 1
            invariant
                self.wf(),
                0 <= lo < hi <= nc,
                nc == self.num_chunks(),
                2 * nc == total,
                self.boundaries()[lo as int] <= t,
                forall|j: int| hi <= j < nc ==> self.boundaries()[j] > t,
            decreases hi - lo,
        {
            let mid: usize = lo + (hi - lo) / 2;
            if self.words[nc + mid] <= t {
                lo = mid;
            } else {
                hi = mid;
                proof {
                    assert forall|j: int| hi <= j < nc implies self.boundaries()[j] > t by {
                        if j > hi {
                            assert(self.boundaries()[hi as int] <= self.boundaries()[j]);
                        }
                    }
                }
            }
        }
        (lo, t - self.words[nc + lo])
    }
}

/// The largest index `j` with `b[j] <= t`, or `-1` when there is none.
pub open spec fn spec_chunk_of(b: Seq<u64>, t: u64) -> int
    decreases b.len(),
{
    if b.len() == 0 {
        -1
    } else if b.last() <= t {
        b.len() - 1
    } else {
        spec_chunk_of(b.drop_last(), t)
    }
}

/// In a non-decreasing sequence, the largest index at or below `t` is the one
/// whose successors are all above `t`.
proof fn lemma_chunk_of_characterize(b: Seq<u64>, t: u64, j: int)
    requires
        0 <= j < b.len(),
        b[j] <= t,
        forall|q: int| j < q < b.len() ==> b[q] > t,
    ensures
        spec_chunk_of(b, t) == j,
    decreases b.len(),
{
    if j == b.len() - 1 {
    } else {
        assert(b.last() > t);
        assert(b.drop_last()[j] == b[j]);
        lemma_chunk_of_characterize(b.drop_last(), t, j);
    }
}

/// A token at or past the first entry always lands in some chunk.
proof fn lemma_chunk_of_bounds(b: Seq<u64>, t: u64)
    requires
        b.len() > 0,
        b[0] <= t,
    ensures
        0 <= spec_chunk_of(b, t) < b.len(),
    decreases b.len(),
{
    if b.len() > 1 && b.last() > t {
        assert(b.drop_last()[0] == b[0]);
        lemma_chunk_of_bounds(b.drop_last(), t);
    }
}

/// One query token's place inside a chunk read.
pub struct TokenSlot {
    /// Index of the token in the caller's query vector.
    pub query_index: usize,
    /// The token's distance past the chunk's first token id, the format's
    /// within-chunk offset.
    pub within_offset: u64,
}

/// One posting chunk to read, with every query token that falls in it.
pub struct ChunkPlan {
    pub chunk_id: usize,
    /// First byte of the chunk in the file.
    pub byte_start: u64,
    /// First byte past the chunk, as the table states it.
    pub byte_end: u64,
    pub slots: Vec<TokenSlot>,
}

/// Some slot of `slots` carries query index `i`.
pub open spec fn spec_slots_have_index(slots: Seq<TokenSlot>, i: int) -> bool {
    exists|s: int| 0 <= s < slots.len() && (#[trigger] slots[s]).query_index == i
}

/// The slots of `plan` are exactly the query tokens of its chunk, in query
/// order, each with its within-chunk offset.
pub open spec fn spec_plan_slots_ok(plan: ChunkPlan, b: Seq<u64>, q: Seq<u32>) -> bool {
    &&& forall|s: int|
        0 <= s < plan.slots.len() ==> {
            &&& (#[trigger] plan.slots[s]).query_index < q.len()
            &&& spec_chunk_of(b, q[plan.slots[s].query_index as int] as u64) == plan.chunk_id
            &&& plan.slots[s].within_offset == q[plan.slots[s].query_index as int] as u64 - b[
                plan.chunk_id as int]
        }
    &&& forall|s: int, s2: int|
        0 <= s < s2 < plan.slots.len() ==> plan.slots[s].query_index < plan.slots[
            s2
        ].query_index
    &&& forall|i: int|
        #![trigger q[i]]
        0 <= i < q.len() && spec_chunk_of(b, q[i] as u64) == plan.chunk_id
            ==> spec_slots_have_index(plan.slots@, i)
}

/// `plan` reads one chunk of `tables` with the byte range the table gives it
/// and carries exactly its share of the query.
pub open spec fn spec_plan_ok(plan: ChunkPlan, tables: PlistTables, q: Seq<u32>) -> bool {
    &&& plan.chunk_id < tables.num_chunks()
    &&& plan.byte_start == tables.words()[plan.chunk_id as int]
    &&& plan.byte_end == tables.words()[plan.chunk_id + 1]
    &&& plan.slots.len() > 0
    &&& spec_plan_slots_ok(plan, tables.boundaries(), q)
}

/// Some plan reads the chunk that holds token `t`.
pub open spec fn spec_plan_covers_token(plans: Seq<ChunkPlan>, b: Seq<u64>, t: u32) -> bool {
    exists|p: int|
        0 <= p < plans.len() && (#[trigger] plans[p]).chunk_id == spec_chunk_of(b, t as u64)
}

/// Every query token's chunk is read by one of the plans.
pub open spec fn spec_plans_cover(plans: Seq<ChunkPlan>, b: Seq<u64>, q: Seq<u32>) -> bool {
    forall|i: int| #![trigger q[i]] 0 <= i < q.len() ==> spec_plan_covers_token(plans, b, q[i])
}

/// Group the query tokens of one file by the posting chunk that holds them,
/// in ascending chunk order, with the byte range to read for each chunk.
/// A token below the first term-dictionary boundary belongs to no chunk, so
/// it is a corruption of the file's term dictionary.
pub fn plan_chunk_reads(tables: &PlistTables, query_tokens: &Vec<u32>) -> (r: Result<
    Vec<ChunkPlan>,
    LavaError,
>)
    requires
        tables.wf(),
    ensures
        r matches Ok(plans) ==> {
            &&& forall|p: int, p2: int|
                0 <= p < p2 < plans.len() ==> plans[p].chunk_id < plans[p2].chunk_id
            &&& forall|p: int|
                0 <= p < plans.len() ==> spec_plan_ok(#[trigger] plans[p], *tables, query_tokens@)
            &&& spec_plans_cover(plans@, tables.boundaries(), query_tokens@)
        },
        r is Err <==> exists|i: int|
            0 <= i < query_tokens.len() && ((#[trigger] query_tokens@[i]) as u64)
                < tables.boundaries()[0],
        r matches Err(e) ==> e matches LavaError::Parse(m) && m@ == "data corruption"@,
{
    let m: usize = query_tokens.len();
    let nc: usize = tables.chunk_count();
    for i in 0..m
        invariant
            m == query_tokens.len(),
            tables.wf(),
            forall|j: int|
                0 <= j < i ==> (#[trigger] query_tokens@[j]) as u64 >= tables.boundaries()[0],
    {
        if (query_tokens[i] as u64) < tables.first_boundary() {
            return Err(LavaError::data_corruption());
        }
    }
    proof {
        assert forall|i: int| 0 <= i < m implies 0 <= spec_chunk_of(
            tables.boundaries(),
            (#[trigger] query_tokens@[i]) as u64,
        ) < nc by {
            lemma_chunk_of_bounds(tables.boundaries(), query_tokens@[i] as u64);
        }
    }
    let mut plans: Vec<ChunkPlan> = Vec::new();
    for c in 0..nc
        invariant
            m == query_tokens.len(),
            nc == tables.num_chunks(),
            tables.wf(),
            forall|j: int|
                0 <= j < m ==> (#[trigger] query_tokens@[j]) as u64 >= tables.boundaries()[0],
            forall|i: int|
                0 <= i < m ==> 0 <= spec_chunk_of(
                    tables.boundaries(),
                    (#[trigger] query_tokens@[i]) as u64,
                ) < nc,
            forall|p: int, p2: int|
                0 <= p < p2 < plans.len() ==> plans@[p].chunk_id < plans@[p2].chunk_id,
            forall|p: int| 0 <= p < plans.len() ==> (#[trigger] plans@[p]).chunk_id < c,
            forall|p: int|
                0 <= p < plans.len() ==> spec_plan_ok(#[trigger] plans@[p], *tables, query_tokens@),
            forall|i: int|
                #![trigger query_tokens@[i]]
                0 <= i < m && spec_chunk_of(tables.boundaries(), query_tokens@[i] as u64) < c
                    ==> spec_plan_covers_token(plans@, tables.boundaries(), query_tokens@[i]),
    {
        let mut slots: Vec<TokenSlot> = Vec::new();
        for i in 0..m
            invariant
                m == query_tokens.len(),
                nc == tables.num_chunks(),
                c < nc,
                tables.wf(),
                forall|j: int|
                    0 <= j < m ==> (#[trigger] query_tokens@[j]) as u64 >= tables.boundaries()[0],
                forall|s: int|
                    0 <= s < slots.len() ==> {
                        &&& (#[trigger] slots@[s]).query_index < i
                        &&& spec_chunk_of(
                            tables.boundaries(),
                            query_tokens@[slots@[s].query_index as int] as u64,
                        ) == c
                        &&& slots@[s].within_offset == query_tokens@[slots@[s].query_index as int]
                            as u64 - tables.boundaries()[c as int]
                    },
                forall|s: int, s2: int|
                    0 <= s < s2 < slots.len() ==> slots@[s].query_index < slots@[s2].query_index,
                forall|j: int|
                    #![trigger query_tokens@[j]]
                    0 <= j < i && spec_chunk_of(tables.boundaries(), query_tokens@[j] as u64) == c
                        ==> spec_slots_have_index(slots@, j),
        {
            let (chunk, off) = tables.locate_token(query_tokens[i] as u64);
            proof {
                lemma_chunk_of_characterize(
                    tables.boundaries(),
                    query_tokens@[i as int] as u64,
                    chunk as int,
                );
            }
            if chunk == c {
                let ghost prior_slots = slots@;
                slots.push(TokenSlot { query_index: i, within_offset: off });
                proof {
                    assert forall|j: int|
                        #![trigger query_tokens@[j]]
                        0 <= j < i + 1 && spec_chunk_of(
                            tables.boundaries(),
                            query_tokens@[j] as u64,
                        ) == c implies spec_slots_have_index(slots@, j) by {
                        if j < i {
                            assert(spec_slots_have_index(prior_slots, j));
                            let s0 = choose|s: int|
                                0 <= s < prior_slots.len() && (#[trigger] prior_slots[s]).query_index
                                    == j;
                            assert(slots@[s0].query_index == j);
                        } else {
                            assert(slots@[slots@.len() - 1].query_index == j);
                        }
                    }
                }
            }
        }
        if slots.len() > 0 {
            let (byte_start, byte_end) = tables.chunk_byte_range(c);
            let plan = ChunkPlan { chunk_id: c, byte_start, byte_end, slots };
            let ghost prior = plans@;
            plans.push(plan);
            proof {
                assert(plans@ == prior.push(plan));
                assert(spec_plan_slots_ok(plan, tables.boundaries(), query_tokens@));
                assert(spec_plan_ok(plan, *tables, query_tokens@));
                assert forall|i: int| #![trigger query_tokens@[i]]
                    0 <= i < m && spec_chunk_of(tables.boundaries(), query_tokens@[i] as u64) < c
                        + 1 implies spec_plan_covers_token(
                    plans@,
                    tables.boundaries(),
                    query_tokens@[i],
                ) by {
                    let cid = spec_chunk_of(tables.boundaries(), query_tokens@[i] as u64);
                    if cid < c {
                        assert(spec_plan_covers_token(prior, tables.boundaries(), query_tokens@[i]));
                        let p0 = choose|p: int|
                            0 <= p < prior.len() && (#[trigger] prior[p]).chunk_id == cid;
                        assert(plans@[p0].chunk_id == cid);
                    } else {
                        assert(plans@[plans@.len() - 1].chunk_id == cid);
                    }
                }
            }
        } else {
            proof {
                assert forall|i: int| #![trigger query_tokens@[i]]
                    0 <= i < m && spec_chunk_of(tables.boundaries(), query_tokens@[i] as u64) < c
                        + 1 implies spec_plan_covers_token(
                    plans@,
                    tables.boundaries(),
                    query_tokens@[i],
                ) by {
                    let cid = spec_chunk_of(tables.boundaries(), query_tokens@[i] as u64);
                    assert(cid != c);
                }
            }
        }
    }
    proof {
        assert forall|i: int| #![trigger query_tokens@[i]] 0 <= i < query_tokens@.len()
            implies spec_plan_covers_token(plans@, tables.boundaries(), query_tokens@[i]) by {
            assert(spec_chunk_of(tables.boundaries(), query_tokens@[i] as u64) < nc);
        }
    }
    Ok(plans)
}

/// One scored posting handed up to the engine: which query token hit which
/// document, and the stored page score.
pub struct Posting {
    pub query_index: usize,
    pub uid: u64,
    pub page_score: u64,
}

/// The postings packed in one token's run: consecutive `(uid, score)` pairs.
pub open spec fn spec_run_postings(qi: usize, run: Seq<u64>) -> Seq<Posting> {
    Seq::new(
        (run.len() / 2) as nat,
        |j: int| Posting { query_index: qi, uid: run[2 * j], page_score: run[2 * j + 1] },
    )
}

/// The postings of the first `s` runs of a chunk read, in slot order.
pub open spec fn spec_plan_postings(slots: Seq<TokenSlot>, runs: Seq<Seq<u64>>, s: int) -> Seq<
    Posting,
>
    decreases s,
{
    if s <= 0 {
        Seq::empty()
    } else {
        spec_plan_postings(slots, runs, s - 1) + spec_run_postings(
            slots[s - 1].query_index,
            runs[s - 1],
        )
    }
}

/// Unpack the decoded runs of one chunk read into postings tagged with the
/// query token they belong to.
pub fn extract_postings(plan: &ChunkPlan, runs: &Vec<Vec<u64>>) -> (r: Vec<Posting>)
    requires
        runs.len() == plan.slots.len(),
        forall|s: int| 0 <= s < runs.len() ==> (#[trigger] runs[s]@).len() % 2 == 0,
    ensures
        r@ == spec_plan_postings(
            plan.slots@,
            runs@.map_values(|v: Vec<u64>| v@),
            plan.slots@.len() as int,
        ),
{
    let ghost runseqs = runs@.map_values(|v: Vec<u64>| v@);
    let n: usize = runs.len();
    let mut out: Vec<Posting> = Vec::new();
    for s in 0..n
        invariant
            n == runs.len(),
            n == plan.slots.len(),
            runseqs == runs@.map_values(|v: Vec<u64>| v@),
            forall|q: int| 0 <= q < n ==> (#[trigger] runs[q]@).len() % 2 == 0,
            out@ == spec_plan_postings(plan.slots@, runseqs, s as int),
    {
        let run: &Vec<u64> = &runs[s];
        let qi: usize = plan.slots[s].query_index;
        let pairs: usize = run.len() / 2;
        proof {
            assert(run@.len() == 2 * pairs);
        }
        let ghost before = out@;
        for j in 0..pairs
            invariant
                pairs <= run.len(),
                run@.len() == 2 * pairs,
                out@ == before + spec_run_postings(qi, run@).take(j as int),
        {
            let posting = Posting { query_index: qi, uid: run[2 * j], page_score: run[2 * j + 1] };
            out.push(posting);
            proof {
                assert(spec_run_postings(qi, run@).take(j + 1) =~= spec_run_postings(
                    qi,
                    run@,
                ).take(j as int).push(posting));
                assert(out@ =~= before + spec_run_postings(qi, run@).take(j + 1));
            }
        }
        proof {
            assert(spec_run_postings(qi, run@).take(pairs as int) =~= spec_run_postings(qi, run@));
            assert(runseqs[s as int] == run@);
            assert(out@ =~= spec_plan_postings(plan.slots@, runseqs, s + 1));
        }
    }
    out
}

/// Per-file occurrence counts of the query tokens, read off the decoded term
/// dictionary. A token id outside the dictionary is a caller error.
pub fn token_counts_for_query(token_counts: &Vec<u64>, query_tokens: &Vec<u32>) -> (r: Result<
    Vec<u64>,
    LavaError,
>)
    ensures
        r matches Ok(v) ==> {
            &&& v@.len() == query_tokens@.len()
            &&& forall|i: int|
                0 <= i < query_tokens@.len() ==> (#[trigger] query_tokens@[i]) < token_counts@.len()
                    && v@[i] == token_counts@[query_tokens@[i] as int]
        },
        r is Err <==> exists|i: int|
            0 <= i < query_tokens@.len() && (#[trigger] query_tokens@[i]) as int
                >= token_counts@.len(),
        r matches Err(e) ==> e is InvalidInput,
{
    let m: usize = query_tokens.len();
    let mut out: Vec<u64> = Vec::new();
    for i in 0..m
        invariant
            m == query_tokens.len(),
            out@.len() == i,
            forall|j: int|
                0 <= j < i ==> (#[trigger] query_tokens@[j]) < token_counts@.len() && out@[j]
                    == token_counts@[query_tokens@[j] as int],
    {
        let t: usize = query_tokens[i] as usize;
        if t >= token_counts.len() {
            return Err(LavaError::InvalidInput);
        }
        out.push(token_counts[t]);
    }
    Ok(out)
}

/// The trailer, decoded term dictionary and validated offsets table of a
/// BM25 file, straight from its bytes; `None` when any bound, decode or
/// invariant fails. The components are the per-token counts, the raw
/// offsets-table words, and the document count.
pub open spec fn spec_bm25_meta(file: Seq<u8>) -> Option<(Seq<u64>, Seq<u64>, u64)> {
    if file.len() < 24 {
        None
    } else {
        let tw = spec_le_u64s(file.subrange(file.len() - 24, file.len() as int));
        let td_off = tw[0];
        let po_off = tw[1];
        let num_docs = tw[2];
        if td_off <= po_off && po_off as int <= file.len() - 24 {
            match (crate::codec::spec_decompress_u64s(
                file.subrange(td_off as int, po_off as int),
            ), crate::codec::spec_decompress_u64s(file.subrange(po_off as int, file.len() - 24))) {
                (Some(counts), Some(words)) => if {
                    &&& words.len() % 2 == 0
                    &&& words.len() >= 2
                    &&& forall|i: int, j: int| 0 <= i < j < words.len() / 2 ==> words[i] < words[j]
                    &&& forall|i: int, j: int|
                        words.len() / 2 <= i < j < words.len() ==> words[i] <= words[j]
                } {
                    Some((counts, words, num_docs))
                } else {
                    None
                },
                _ => None,
            }
        } else {
            None
        }
    }
}

/// Load one BM25 file held in memory: parse its trailer, decode the term
/// dictionary and the posting-list offsets table, and validate the table's
/// invariants.
pub fn load_bm25_meta(file: &Vec<u8>) -> (r: Result<(Bm25Trailer, Vec<u64>, PlistTables), LavaError>)
    ensures
        r matches Ok(m) ==> {
            &&& spec_bm25_meta(file@) matches Some(meta)
            &&& meta.0 == m.1@
            &&& meta.1 == m.2.words()
            &&& meta.2 == m.0.num_documents
            &&& m.2.wf()
            &&& m.2.num_chunks() == m.2.words().len() / 2
        },
        r is Err <==> spec_bm25_meta(file@) is None,
        r matches Err(e) ==> e is Parse,
{
    let len: usize = file.len();
    if len < 24 {
        return Err(LavaError::Parse("malformed trailer".to_owned()));
    }
    let tail = vstd::slice::slice_subrange(file.as_slice(), len - 24, len);
    let trailer = parse_bm25_trailer(tail, len as u64)?;
    proof {
        assert(spec_le_u64s(tail@)[0] == spec_le_u64_at(tail@, 0));
        assert(spec_le_u64s(tail@)[1] == spec_le_u64_at(tail@, 8));
        assert(spec_le_u64s(tail@)[2] == spec_le_u64_at(tail@, 16));
    }
    let td_off: usize = trailer.term_dict_offset as usize;
    let po_off: usize = trailer.plist_offsets_offset as usize;
    let counts = crate::codec::decompress_u64_vec(
        vstd::slice::slice_subrange(file.as_slice(), td_off, po_off),
    )?;
    let words = crate::codec::decompress_u64_vec(
        vstd::slice::slice_subrange(file.as_slice(), po_off, len - 24),
    )?;
    let tables = PlistTables::new(words)?;
    Ok((trailer, counts, tables))
}

/// Slice the byte range one chunk plan asks for out of an in-memory file:
/// an empty range is rejected as the reader rejects it, a range past the
/// end as a failed read.
pub fn read_plan_chunk<'a>(file: &'a Vec<u8>, plan: &ChunkPlan) -> (r: Result<&'a [u8], LavaError>)
    ensures
        r matches Ok(s) ==> plan.byte_start < plan.byte_end && plan.byte_end <= file@.len() && s@
            == file@.subrange(plan.byte_start as int, plan.byte_end as int),
        r is Err <==> (plan.byte_start >= plan.byte_end || plan.byte_end > file@.len()),
        r matches Err(e) ==> {
            ||| (e is InvalidInput && plan.byte_start >= plan.byte_end)
            ||| (e is Io && plan.byte_start < plan.byte_end)
        },
{
    if plan.byte_start >= plan.byte_end {
        return Err(LavaError::InvalidInput);
    }
    if plan.byte_end > file.len() as u64 {
        return Err(LavaError::Io);
    }
    Ok(vstd::slice::slice_subrange(file.as_slice(), plan.byte_start as usize, plan.byte_end as usize))
}

/// All of one document's score contributions in one file: which query
/// tokens hit it, and the page score stored with each hit. The engine folds
/// these into one binary32 score per document.
pub struct ScoreGroup {
    pub file_id: u64,
    pub uid: u64,
    /// `(query_index, page_score)` of every posting of this document, in
    /// posting order.
    pub contributions: Vec<(usize, u64)>,
}

/// Group one file's postings by document, documents in order of first
/// appearance, contributions in posting order: the deterministic shape of
/// the engine's score accumulator.
pub fn group_postings(file_id: u64, postings: &Vec<Posting>) -> (r: Vec<ScoreGroup>)
    ensures
        r@.map_values(|g: ScoreGroup| (g.file_id, g.uid)) == crate::substring::spec_uid_extend(
            Seq::<(u64, u64)>::empty(),
            file_id,
            postings@.map_values(|p: Posting| p.uid),
        ),
        forall|g: int|
            0 <= g < r@.len() ==> {
                &&& (#[trigger] r@[g]).file_id == file_id
                &&& r@[g].contributions@ == postings@.filter(
                    |p: Posting| p.uid == r@[g].uid,
                ).map_values(|p: Posting| (p.query_index, p.page_score))
            },
{
    let n: usize = postings.len();
    let mut uids: Vec<u64> = Vec::new();
    for i in 0..n
        invariant
            n == postings@.len(),
            uids@.len() == i,
            forall|j: int| 0 <= j < i ==> uids@[j] == (#[trigger] postings@[j]).uid,
    {
        uids.push(postings[i].uid);
    }
    proof {
        assert(uids@ =~= postings@.map_values(|p: Posting| p.uid));
    }
    let mut keys = crate::substring::UidSet::new();
    crate::substring::uidset_extend(&mut keys, file_id, &uids, 0, n);
    proof {
        assert(uids@.subrange(0, n as int) =~= uids@);
    }
    let key_pairs = keys.into_vec();
    proof {
        crate::substring::lemma_uid_extend_shape(Seq::<(u64, u64)>::empty(), file_id, uids@);
        assert forall|z: int| 0 <= z < key_pairs@.len() implies (#[trigger] key_pairs@[z]).0
            == file_id by {}
    }
    let nk: usize = key_pairs.len();
    let mut r: Vec<ScoreGroup> = Vec::new();
    for g in 0..nk
        invariant
            nk == key_pairs@.len(),
            n == postings@.len(),
            r@.len() == g,
            forall|z: int|
                0 <= z < g ==> ((#[trigger] r@[z]).file_id, r@[z].uid) == key_pairs@[z],
            forall|z: int|
                0 <= z < g ==> (#[trigger] r@[z]).contributions@ == postings@.filter(
                    |p: Posting| p.uid == r@[z].uid,
                ).map_values(|p: Posting| (p.query_index, p.page_score)),
    {
        let uid: u64 = key_pairs[g].1;
        let gfid: u64 = key_pairs[g].0;
        let mut contributions: Vec<(usize, u64)> = Vec::new();
        for i in 0..n
            invariant
                n == postings@.len(),
                contributions@ == postings@.take(i as int).filter(
                    |p: Posting| p.uid == uid,
                ).map_values(|p: Posting| (p.query_index, p.page_score)),
        {
            let p = &postings[i];
            proof {
                reveal(Seq::filter);
                assert(postings@.take(i + 1).drop_last() =~= postings@.take(i as int));
                assert(postings@.take(i + 1).last() == postings@[i as int]);
                let pred = |q: Posting| q.uid == uid;
                if pred(postings@[i as int]) {
                    assert(postings@.take(i + 1).filter(pred) == postings@.take(i as int).filter(
                        pred,
                    ).push(postings@[i as int]));
                } else {
                    assert(postings@.take(i + 1).filter(pred) == postings@.take(i as int).filter(
                        pred,
                    ));
                }
            }
            if p.uid == uid {
                contributions.push((p.query_index, p.page_score));
            }
        }
        proof {
            assert(postings@.take(n as int) =~= postings@);
        }
        r.push(ScoreGroup { file_id: gfid, uid, contributions });
    }
    proof {
        assert(r@.map_values(|sg: ScoreGroup| (sg.file_id, sg.uid)) =~= key_pairs@);
    }
    r
}

/// Sum two per-file count vectors element by element; a sum that leaves
/// `u64` can only come from a corrupted term dictionary.
pub fn add_u64_totals(a: &Vec<u64>, b: &Vec<u64>) -> (r: Result<Vec<u64>, LavaError>)
    requires
        a@.len() == b@.len(),
    ensures
        r matches Ok(v) ==> {
            &&& v@.len() == a@.len()
            &&& forall|i: int| 0 <= i < a@.len() ==> v@[i] == #[trigger] a@[i] + b@[i]
        },
        r is Err <==> exists|i: int| 0 <= i < a@.len() && #[trigger] a@[i] + b@[i] > u64::MAX,
        r matches Err(e) ==> e matches LavaError::Parse(m) && m@ == "data corruption"@,
{
    let n: usize = a.len();
    let mut out: Vec<u64> = Vec::new();
    for i in 0..n
        invariant
            n == a@.len(),
            a@.len() == b@.len(),
            out@.len() == i,
            forall|j: int| 0 <= j < i ==> out@[j] == #[trigger] a@[j] + b@[j],
            forall|j: int| 0 <= j < i ==> #[trigger] a@[j] + b@[j] <= u64::MAX,
    {
        if a[i] > u64::MAX - b[i] {
            return Err(LavaError::data_corruption());
        }
        out.push(a[i] + b[i]);
    }
    Ok(out)
}

} // verus!
