//! Per-file view of the substring (FM-index) format: the four-integer
//! trailer, the three offset tables with their invariants, and the mapping
//! of a narrowed suffix-array interval to document ids through the per-chunk
//! posting lists.

use vstd::prelude::*;

use crate::codec::{spec_le_u64s, spec_le_u64_at, spec_decompress_u64s};
use crate::error::LavaError;
use crate::fm::{FM_CHUNK_TOKS, backward_search, spec_chunk_toks, spec_backward_search};

verus! {

/// The four little-endian integers at the tail of a substring index file.
pub struct SubstringTrailer {
    /// Byte offset of the FM rank-block offsets table.
    pub fm_chunk_offsets_offset: u64,
    /// Byte offset of the per-chunk posting-list offsets table.
    pub posting_list_offsets_offset: u64,
    /// Byte offset of the cumulative-counts table.
    pub total_counts_offset: u64,
    /// Length of the BWT.
    pub n: u64,
}

/// Parse the last 32 bytes of a substring file. The three table offsets
/// must fall inside the payload, in order.
pub fn parse_substring_trailer(bytes: &[u8], file_size: u64) -> (r: Result<
    SubstringTrailer,
    LavaError,
>)
    ensures
        r matches Ok(t) ==> {
            &&& bytes@.len() == 32
            &&& file_size >= 32
            &&& t.fm_chunk_offsets_offset == spec_le_u64_at(bytes@, 0)
            &&& t.posting_list_offsets_offset == spec_le_u64_at(bytes@, 8)
            &&& t.total_counts_offset == spec_le_u64_at(bytes@, 16)
            &&& t.n == spec_le_u64_at(bytes@, 24)
            &&& t.fm_chunk_offsets_offset <= t.posting_list_offsets_offset
            &&& t.posting_list_offsets_offset <= t.total_counts_offset <= file_size - 32
        },
        r is Err <==> !{
            &&& bytes@.len() == 32
            &&& file_size >= 32
            &&& spec_le_u64_at(bytes@, 0) <= spec_le_u64_at(bytes@, 8)
            &&& spec_le_u64_at(bytes@, 8) <= spec_le_u64_at(bytes@, 16)
            &&& spec_le_u64_at(bytes@, 16) <= file_size - 32
        },
        r matches Err(e) ==> e is Parse,
{
    if bytes.len() != 32 || file_size < 32 {
        return Err(LavaError::Parse("malformed trailer".to_owned()));
    }
    let words = crate::codec::read_le_u64s(bytes)?;
    let fm_chunk_offsets_offset = words[0];
    let posting_list_offsets_offset = words[1];
    let total_counts_offset = words[2];
    let n = words[3];
    if fm_chunk_offsets_offset > posting_list_offsets_offset || posting_list_offsets_offset
        > total_counts_offset || total_counts_offset > file_size - 32 {
        return Err(LavaError::Parse("malformed trailer".to_owned()));
    }
    Ok(
        SubstringTrailer {
            fm_chunk_offsets_offset,
            posting_list_offsets_offset,
            total_counts_offset,
            n,
        },
    )
}

/// Entries of both chunk-offset tables of a BWT of length `n`: one span
/// boundary per rank block, and one more to close the last span.
pub open spec fn spec_offsets_len(n: u64) -> int {
    n as int / FM_CHUNK_TOKS as int + (if n as int % FM_CHUNK_TOKS as int == 0 {
        0int
    } else {
        1int
    }) + 1
}

/// The format's invariants on the three decoded tables: both offset tables
/// have one entry per rank block plus a closing one and increase strictly;
/// the cumulative counts never decrease.
pub open spec fn spec_fm_tables_wf(
    fm_offsets: Seq<u64>,
    pl_offsets: Seq<u64>,
    counts: Seq<u64>,
    n: u64,
) -> bool {
    &&& fm_offsets.len() == spec_offsets_len(n)
    &&& pl_offsets.len() == spec_offsets_len(n)
    &&& forall|i: int, j: int| 0 <= i < j < fm_offsets.len() ==> fm_offsets[i] < fm_offsets[j]
    &&& forall|i: int, j: int| 0 <= i < j < pl_offsets.len() ==> pl_offsets[i] < pl_offsets[j]
    &&& forall|i: int, j: int| 0 <= i < j < counts.len() ==> counts[i] <= counts[j]
}

/// A sequence increases strictly; checked pairwise on neighbours.
fn check_strictly_increasing(v: &Vec<u64>) -> (r: bool)
    ensures
        r <==> forall|i: int, j: int| 0 <= i < j < v@.len() ==> v@[i] < v@[j],
{
    let n: usize = v.len();
    if n == 0 {
        return true;
    }
    for i in 0..n - 1
        invariant
            n == v@.len(),
            n >= 1,
            forall|a: int, b: int| 0 <= a < b <= i ==> v@[a] < v@[b],
    {
        if v[i] >= v[i + 1] {
            return false;
        }
    }
    true
}

/// A sequence never decreases; checked pairwise on neighbours.
fn check_non_decreasing(v: &Vec<u64>) -> (r: bool)
    ensures
        r <==> forall|i: int, j: int| 0 <= i < j < v@.len() ==> v@[i] <= v@[j],
{
    let n: usize = v.len();
    if n == 0 {
        return true;
    }
    for i in 0..n - 1
        invariant
            n == v@.len(),
            n >= 1,
            forall|a: int, b: int| 0 <= a < b <= i ==> v@[a] <= v@[b],
    {
        if v[i] > v[i + 1] {
            return false;
        }
    }
    true
}

/// Validate freshly decoded substring tables against the format's
/// invariants; everything else is the "data corruption" parse error.
pub fn validate_fm_tables(
    fm_offsets: &Vec<u64>,
    pl_offsets: &Vec<u64>,
    counts: &Vec<u64>,
    n: u64,
) -> (r: Result<(), LavaError>)
    ensures
        r is Ok <==> spec_fm_tables_wf(fm_offsets@, pl_offsets@, counts@, n),
        r matches Err(e) ==> e matches LavaError::Parse(m) && m@ == "data corruption"@,
{
    let blocks: u64 = n / FM_CHUNK_TOKS + (if n % FM_CHUNK_TOKS == 0 {
        0
    } else {
        1
    });
    let have: usize = fm_offsets.len();
    if blocks > usize::MAX as u64 - 1 {
        proof {
            assert(fm_offsets@.len() < spec_offsets_len(n));
        }
        return Err(LavaError::data_corruption());
    }
    let want: usize = blocks as usize + 1;
    if have != want || pl_offsets.len() != want {
        return Err(LavaError::data_corruption());
    }
    if !check_strictly_increasing(fm_offsets) {
        return Err(LavaError::data_corruption());
    }
    if !check_strictly_increasing(pl_offsets) {
        return Err(LavaError::data_corruption());
    }
    if !check_non_decreasing(counts) {
        return Err(LavaError::data_corruption());
    }
    Ok(())
}

/// The document ids found by a substring query, with the file each came
/// from. Insertion order, no duplicates.
pub struct UidSet {
    items: Vec<(u64, u64)>,
}

impl UidSet {
    /// The collected `(file_id, uid)` pairs, oldest first.
    pub closed spec fn items(self) -> Seq<(u64, u64)> {
        self.items@
    }

    /// No pair occurs twice.
    pub open spec fn wf(self) -> bool {
        forall|i: int, j: int| 0 <= i < j < self.items().len() ==> self.items()[i] != self.items()[j]
    }

    pub fn new() -> (s: UidSet)
        ensures
            s.items() == Seq::<(u64, u64)>::empty(),
            s.wf(),
    {
        UidSet { items: Vec::new() }
    }

    pub fn len(&self) -> (n: usize)
        ensures
            n == self.items().len(),
    {
        self.items.len()
    }

    /// The collected pairs, handed out for the engine's final answer.
    pub fn into_vec(self) -> (v: Vec<(u64, u64)>)
        ensures
            v@ == self.items(),
    {
        self.items
    }

    /// Add one pair unless it is already present.
    pub fn insert(&mut self, x: (u64, u64))
        requires
            old(self).wf(),
        ensures
            final(self).items() == spec_uid_insert(old(self).items(), x),
            final(self).wf(),
    {
        let n: usize = self.items.len();
        for i in 0..n
            invariant
                n == self.items@.len(),
                *self == *old(self),
                old(self).wf(),
                forall|j: int| 0 <= j < i ==> self.items@[j] != x,
        {
            if self.items[i].0 == x.0 && self.items[i].1 == x.1 {
                proof {
                    assert(self.items@.contains(x));
                }
                return ;
            }
        }
        proof {
            assert(!self.items@.contains(x));
        }
        self.items.push(x);
        proof {
            assert forall|a: int, b: int| 0 <= a < b < self.items@.len() implies self.items@[a]
                != self.items@[b] by {
                if b == self.items@.len() - 1 {
                    assert(self.items@[a] == old(self).items()[a]);
                } else {
                    assert(self.items@[a] == old(self).items()[a]);
                    assert(self.items@[b] == old(self).items()[b]);
                }
            }
        }
    }
}

/// Insertion into the collected sequence: append, unless already present.
pub open spec fn spec_uid_insert(s: Seq<(u64, u64)>, x: (u64, u64)) -> Seq<(u64, u64)> {
    if s.contains(x) {
        s
    } else {
        s.push(x)
    }
}

/// All of `uids[from..to]` inserted in order, each tagged with `fid`.
pub open spec fn spec_uid_extend(s: Seq<(u64, u64)>, fid: u64, uids: Seq<u64>) -> Seq<(u64, u64)>
    decreases uids.len(),
{
    if uids.len() == 0 {
        s
    } else {
        spec_uid_insert(spec_uid_extend(s, fid, uids.drop_last()), (fid, uids.last()))
    }
}

/// Extension only appends, and appends nothing but pairs of `fid`.
pub proof fn lemma_uid_extend_shape(s: Seq<(u64, u64)>, fid: u64, uids: Seq<u64>)
    ensures
        spec_uid_extend(s, fid, uids).len() >= s.len(),
        forall|j: int| 0 <= j < s.len() ==> #[trigger] spec_uid_extend(s, fid, uids)[j] == s[j],
        forall|j: int|
            s.len() <= j < spec_uid_extend(s, fid, uids).len() ==> (#[trigger] spec_uid_extend(
                s,
                fid,
                uids,
            )[j]).0 == fid,
    decreases uids.len(),
{
    if uids.len() > 0 {
        lemma_uid_extend_shape(s, fid, uids.drop_last());
    }
}

/// Insert `uids[from..to]` in order, each tagged with `fid`.
pub fn uidset_extend(set: &mut UidSet, fid: u64, uids: &Vec<u64>, from: usize, to: usize)
    requires
        old(set).wf(),
        from <= to <= uids@.len(),
    ensures
        final(set).wf(),
        final(set).items() == spec_uid_extend(
            old(set).items(),
            fid,
            uids@.subrange(from as int, to as int),
        ),
{
    for i in from..to
        invariant
            from <= i <= to <= uids@.len(),
            set.wf(),
            set.items() == spec_uid_extend(
                old(set).items(),
                fid,
                uids@.subrange(from as int, i as int),
            ),
    {
        set.insert((fid, uids[i]));
        proof {
            assert(uids@.subrange(from as int, i + 1).drop_last() =~= uids@.subrange(
                from as int,
                i as int,
            ));
            assert(uids@.subrange(from as int, i + 1).last() == uids@[i as int]);
        }
    }
}

/// Insert `uids` one pair at a time, but stop as soon as the set holds more
/// than `k` pairs: the engine's early-termination rule, applied at every
/// single insertion.
pub open spec fn spec_collect_capped(
    s: Seq<(u64, u64)>,
    fid: u64,
    uids: Seq<u64>,
    k: int,
) -> Seq<(u64, u64)>
    decreases uids.len(),
{
    if s.len() > k || uids.len() == 0 {
        s
    } else {
        spec_collect_capped(spec_uid_insert(s, (fid, uids.first())), fid, uids.drop_first(), k)
    }
}

/// One more trailing element either is absorbed by a crossed threshold or
/// inserts as the last step.
proof fn lemma_capped_push(s: Seq<(u64, u64)>, fid: u64, uids: Seq<u64>, x: u64, k: int)
    ensures
        spec_collect_capped(s, fid, uids.push(x), k) == (if spec_collect_capped(
            s,
            fid,
            uids,
            k,
        ).len() > k {
            spec_collect_capped(s, fid, uids, k)
        } else {
            spec_uid_insert(spec_collect_capped(s, fid, uids, k), (fid, x))
        }),
    decreases uids.len(),
{
    if s.len() > k {
    } else if uids.len() == 0 {
        assert(uids.push(x).first() == x);
        assert(uids.push(x).drop_first() =~= Seq::<u64>::empty());
        assert(spec_collect_capped(s, fid, uids.push(x), k) == spec_collect_capped(
            spec_uid_insert(s, (fid, x)),
            fid,
            Seq::<u64>::empty(),
            k,
        ));
        assert(spec_collect_capped(spec_uid_insert(s, (fid, x)), fid, Seq::<u64>::empty(), k)
            == spec_uid_insert(s, (fid, x)));
        assert(spec_collect_capped(s, fid, uids, k) == s);
    } else {
        assert(uids.push(x).first() == uids.first());
        assert(uids.push(x).drop_first() =~= uids.drop_first().push(x));
        assert(spec_collect_capped(s, fid, uids.push(x), k) == spec_collect_capped(
            spec_uid_insert(s, (fid, uids.first())),
            fid,
            uids.drop_first().push(x),
            k,
        ));
        assert(spec_collect_capped(s, fid, uids, k) == spec_collect_capped(
            spec_uid_insert(s, (fid, uids.first())),
            fid,
            uids.drop_first(),
            k,
        ));
        lemma_capped_push(spec_uid_insert(s, (fid, uids.first())), fid, uids.drop_first(), x, k);
    }
}

/// The capped fold splits at any point.
proof fn lemma_capped_split(s: Seq<(u64, u64)>, fid: u64, a: Seq<u64>, b: Seq<u64>, k: int)
    ensures
        spec_collect_capped(s, fid, a + b, k) == spec_collect_capped(
            spec_collect_capped(s, fid, a, k),
            fid,
            b,
            k,
        ),
    decreases a.len(),
{
    if s.len() > k {
        assert(spec_collect_capped(s, fid, a + b, k) == s);
    } else if a.len() == 0 {
        assert(a + b =~= b);
    } else {
        assert((a + b).first() == a.first());
        assert((a + b).drop_first() =~= a.drop_first() + b);
        lemma_capped_split(spec_uid_insert(s, (fid, a.first())), fid, a.drop_first(), b, k);
    }
}

/// A collection that never crossed the threshold dropped nothing: it is
/// the plain insertion of every id, so an unstopped search returns the
/// interval's whole answer.
pub proof fn lemma_capped_is_extend(s: Seq<(u64, u64)>, fid: u64, uids: Seq<u64>, k: int)
    requires
        spec_collect_capped(s, fid, uids, k).len() <= k,
    ensures
        spec_collect_capped(s, fid, uids, k) == spec_uid_extend(s, fid, uids),
    decreases uids.len(),
{
    if uids.len() > 0 {
        let u = uids.drop_last();
        let x = uids.last();
        assert(uids =~= u.push(x));
        lemma_capped_push(s, fid, u, x, k);
        if spec_collect_capped(s, fid, u, k).len() > k {
            assert(spec_collect_capped(s, fid, uids, k) == spec_collect_capped(s, fid, u, k));
        } else {
            lemma_capped_is_extend(s, fid, u, k);
        }
    }
}

/// A capped fold never grows the set past `k + 1` pairs.
proof fn lemma_capped_len(s: Seq<(u64, u64)>, fid: u64, uids: Seq<u64>, k: int)
    ensures
        spec_collect_capped(s, fid, uids, k).len() <= (if s.len() > k {
            s.len() as int
        } else {
            k + 1
        }),
    decreases uids.len(),
{
    if !(s.len() > k || uids.len() == 0) {
        lemma_capped_len(spec_uid_insert(s, (fid, uids.first())), fid, uids.drop_first(), k);
    }
}

/// Insert `uids[from..to]` in order, each tagged with `fid`, stopping as
/// soon as the set exceeds `k` pairs. Says whether it stopped.
pub fn uidset_extend_capped(
    set: &mut UidSet,
    fid: u64,
    uids: &Vec<u64>,
    from: usize,
    to: usize,
    k: usize,
) -> (stopped: bool)
    requires
        old(set).wf(),
        from <= to <= uids@.len(),
    ensures
        final(set).wf(),
        final(set).items() == spec_collect_capped(
            old(set).items(),
            fid,
            uids@.subrange(from as int, to as int),
            k as int,
        ),
        stopped <==> final(set).items().len() > k,
{
    let mut i: usize = from;
    while i < to
        invariant
            from <= i <= to <= uids@.len(),
            set.wf(),
            set.items() == spec_collect_capped(
                old(set).items(),
                fid,
                uids@.subrange(from as int, i as int),
                k as int,
            ),
        decreases to - i,
    {
        if set.len() > k {
            proof {
                assert(uids@.subrange(from as int, to as int) =~= uids@.subrange(
                    from as int,
                    i as int,
                ) + uids@.subrange(i as int, to as int));
                lemma_capped_split(
                    old(set).items(),
                    fid,
                    uids@.subrange(from as int, i as int),
                    uids@.subrange(i as int, to as int),
                    k as int,
                );
            }
            return true;
        }
        set.insert((fid, uids[i]));
        proof {
            assert(uids@.subrange(from as int, i + 1) =~= uids@.subrange(
                from as int,
                i as int,
            ).push(uids@[i as int]));
            lemma_capped_push(
                old(set).items(),
                fid,
                uids@.subrange(from as int, i as int),
                uids@[i as int],
                k as int,
            );
        }
        i = i + 1;
    }
    set.len() > k
}

/// The slice of decoded posting chunk `i` that the interval covers: the
/// first spanned chunk from the interval's start, the last up to its end,
/// interior chunks whole.
pub open spec fn spec_chunk_slice(chunks: Seq<Seq<u64>>, s0: int, e: int, i: int) -> Seq<u64> {
    let lo = if i == 0 {
        s0
    } else {
        0int
    };
    let hi = if i == chunks.len() - 1 {
        e
    } else {
        chunks[i].len() as int
    };
    chunks[i].subrange(lo, hi)
}

/// The collected pairs after the first `m` spanned chunks, each chunk's
/// slice folded in with the per-insert threshold. A set already past `k`
/// absorbs everything that follows.
pub open spec fn spec_collect_chunks(
    s: Seq<(u64, u64)>,
    fid: u64,
    chunks: Seq<Seq<u64>>,
    s0: int,
    e: int,
    m: int,
    k: int,
) -> Seq<(u64, u64)>
    decreases m,
{
    if m <= 0 {
        s
    } else {
        spec_collect_capped(
            spec_collect_chunks(s, fid, chunks, s0, e, m - 1, k),
            fid,
            spec_chunk_slice(chunks, s0, e, m - 1),
            k,
        )
    }
}

/// Collection over chunks inherits the `k + 1` cap.
proof fn lemma_collect_chunks_len(
    s: Seq<(u64, u64)>,
    fid: u64,
    chunks: Seq<Seq<u64>>,
    s0: int,
    e: int,
    m: int,
    k: int,
)
    requires
        0 <= m,
    ensures
        spec_collect_chunks(s, fid, chunks, s0, e, m, k).len() <= (if s.len() > k {
            s.len() as int
        } else {
            k + 1
        }),
    decreases m,
{
    if m > 0 {
        lemma_collect_chunks_len(s, fid, chunks, s0, e, m - 1, k);
        lemma_capped_len(
            spec_collect_chunks(s, fid, chunks, s0, e, m - 1, k),
            fid,
            spec_chunk_slice(chunks, s0, e, m - 1),
            k,
        );
    }
}

/// The interval's slice bounds fit inside the decoded chunks.
pub open spec fn spec_slices_ok(chunks: Seq<Seq<u64>>, s0: int, e: int) -> bool {
    if chunks.len() == 1 {
        s0 <= e <= chunks[0].len()
    } else {
        s0 <= chunks[0].len() && e <= chunks.last().len()
    }
}

/// Walk the decoded posting chunks spanned by a non-empty interval and
/// collect their document ids, pair by pair, stopping as soon as the set
/// holds more than `k` pairs — so a truncated collection that started at or
/// under `k` holds exactly `k + 1`. A chunk too short for its slice is a
/// corrupt file.
pub fn collect_interval_uids(
    set: &mut UidSet,
    fid: u64,
    chunks: &Vec<Vec<u64>>,
    s0: usize,
    e: usize,
    k: usize,
) -> (r: Result<bool, LavaError>)
    requires
        old(set).wf(),
        chunks@.len() >= 1,
    ensures
        final(set).wf(),
        r is Err <==> !spec_slices_ok(chunks@.map_values(|c: Vec<u64>| c@), s0 as int, e as int),
        r is Err ==> *final(set) == *old(set),
        r matches Err(err) ==> err is Parse,
        r matches Ok(stopped) ==> {
            let chs = chunks@.map_values(|c: Vec<u64>| c@);
            &&& final(set).items() == spec_collect_chunks(
                old(set).items(),
                fid,
                chs,
                s0 as int,
                e as int,
                chs.len() as int,
                k as int,
            )
            &&& (stopped <==> final(set).items().len() > k)
            &&& (old(set).items().len() <= k && stopped ==> final(set).items().len() == k + 1)
        },
{
    let ghost chs = chunks@.map_values(|c: Vec<u64>| c@);
    let nchunks: usize = chunks.len();
    if nchunks == 1 {
        if s0 > e || e > chunks[0].len() {
            return Err(LavaError::data_corruption());
        }
    } else {
        if s0 > chunks[0].len() || e > chunks[nchunks - 1].len() {
            return Err(LavaError::data_corruption());
        }
    }
    for i in 0..nchunks
        invariant
            nchunks == chunks@.len(),
            nchunks >= 1,
            chs == chunks@.map_values(|c: Vec<u64>| c@),
            spec_slices_ok(chs, s0 as int, e as int),
            set.wf(),
            set.items() == spec_collect_chunks(
                old(set).items(),
                fid,
                chs,
                s0 as int,
                e as int,
                i as int,
                k as int,
            ),
    {
        let lo: usize = if i == 0 {
            s0
        } else {
            0
        };
        let hi: usize = if i == nchunks - 1 {
            e
        } else {
            chunks[i].len()
        };
        proof {
            assert(chs[i as int] == chunks@[i as int]@);
            if nchunks == 1 {
            } else if i == 0 {
                assert(lo as int == s0 as int && hi as int == chs[0].len());
            } else if i == nchunks - 1 {
                assert(lo == 0 && hi as int == e as int && e as int <= chs.last().len());
            }
        }
        uidset_extend_capped(set, fid, &chunks[i], lo, hi, k);
        proof {
            assert(chunks@[i as int]@.subrange(lo as int, hi as int) =~= spec_chunk_slice(
                chs,
                s0 as int,
                e as int,
                i as int,
            ));
            assert(set.items() == spec_collect_chunks(
                old(set).items(),
                fid,
                chs,
                s0 as int,
                e as int,
                i + 1,
                k as int,
            ));
        }
    }
    proof {
        lemma_collect_chunks_len(
            old(set).items(),
            fid,
            chs,
            s0 as int,
            e as int,
            nchunks as int,
            k as int,
        );
    }
    Ok(set.len() > k)
}

/// The trailer and the three decoded tables of a substring file, straight
/// from its bytes; `None` when any bound, decode, or invariant fails. The
/// components are the FM rank-block offsets, the posting-list offsets, the
/// cumulative counts, and the BWT length.
pub open spec fn spec_substring_meta(file: Seq<u8>) -> Option<(Seq<u64>, Seq<u64>, Seq<u64>, u64)> {
    if file.len() < 32 {
        None
    } else {
        let tw = spec_le_u64s(file.subrange(file.len() - 32, file.len() as int));
        let fm_off = tw[0];
        let pl_off = tw[1];
        let tc_off = tw[2];
        let n = tw[3];
        if fm_off <= pl_off && pl_off <= tc_off && tc_off as int <= file.len() - 32 {
            match (spec_decompress_u64s(file.subrange(fm_off as int, pl_off as int)),
            spec_decompress_u64s(file.subrange(pl_off as int, tc_off as int)),
            spec_decompress_u64s(file.subrange(tc_off as int, file.len() - 32))) {
                (Some(fm), Some(pl), Some(counts)) => if spec_fm_tables_wf(fm, pl, counts, n) {
                    Some((fm, pl, counts, n))
                } else {
                    None
                },
                _ => None,
            }
        } else {
            None
        }
    }
}

/// The decoded posting chunks `first .. first + cnt`, or `None` when any
/// span or decode fails.
pub open spec fn spec_plist_chunks(file: Seq<u8>, pl: Seq<u64>, first: int, cnt: int) -> Option<
    Seq<Seq<u64>>,
>
    decreases cnt,
{
    if cnt <= 0 {
        Some(Seq::<Seq<u64>>::empty())
    } else {
        match (spec_plist_chunks(file, pl, first, cnt - 1), spec_chunk_toks(
            file,
            pl,
            first + cnt - 1,
        )) {
            (Some(pre), Some(c)) => Some(pre.push(c)),
            _ => None,
        }
    }
}

/// What a successful per-file substring search leaves in the result set,
/// as a function of the file's bytes: the tables decode and validate, the
/// backward search lands on an interval, and when that interval is not
/// empty the set grows by the interval's document ids under the per-insert
/// threshold — a collection that started at or under `k` and was truncated
/// holds exactly `k + 1` pairs.
pub open spec fn spec_file_search_ok(
    old_items: Seq<(u64, u64)>,
    new_items: Seq<(u64, u64)>,
    file: Seq<u8>,
    fid: u64,
    q: Seq<u64>,
    k: int,
    stopped: bool,
) -> bool {
    &&& spec_substring_meta(file) matches Some(meta)
    &&& spec_backward_search(file, meta.2, meta.0, q, q.len() as int, 0, meta.3) matches Some(iv)
    &&& {
        let s = iv.0;
        let e = iv.1;
        if s >= e {
            new_items == old_items && !stopped
        } else {
            let first = s as int / FM_CHUNK_TOKS as int;
            let cnt = e as int / FM_CHUNK_TOKS as int - first + 1;
            &&& spec_plist_chunks(file, meta.1, first, cnt) matches Some(chs)
            &&& new_items == spec_collect_chunks(
                old_items,
                fid,
                chs,
                s as int % FM_CHUNK_TOKS as int,
                e as int % FM_CHUNK_TOKS as int,
                chs.len() as int,
                k,
            )
            &&& (stopped <==> new_items.len() > k)
            &&& (old_items.len() <= k && stopped ==> new_items.len() == k + 1)
        }
    }
}

/// When a per-file substring search succeeds: the tables decode and
/// validate (and, where the engine knows the vocabulary, the counts table
/// matches it), every backward step can be read, and a non-empty final
/// interval's posting chunks exist, decode, and fit their slices.
pub open spec fn spec_substring_search_ok(file: Seq<u8>, q: Seq<u64>, vocab: Option<usize>) -> bool {
    &&& spec_substring_meta(file) matches Some(meta)
    &&& (vocab matches Some(v) ==> meta.2.len() == v)
    &&& spec_backward_search(file, meta.2, meta.0, q, q.len() as int, 0, meta.3) matches Some(iv)
    &&& (iv.0 >= iv.1 || {
        let first = iv.0 as int / FM_CHUNK_TOKS as int;
        let cnt = iv.1 as int / FM_CHUNK_TOKS as int - first + 1;
        &&& iv.1 as int / FM_CHUNK_TOKS as int + 1 < meta.1.len()
        &&& spec_plist_chunks(file, meta.1, first, cnt) matches Some(chs)
        &&& spec_slices_ok(
            chs,
            iv.0 as int % FM_CHUNK_TOKS as int,
            iv.1 as int % FM_CHUNK_TOKS as int,
        )
    })
}

/// No readable span for chunk `bad` means no readable span set at all.
proof fn lemma_plist_chunks_none(file: Seq<u8>, pl: Seq<u64>, first: int, cnt: int, bad: int)
    requires
        0 <= bad < cnt,
        spec_chunk_toks(file, pl, first + bad) is None,
    ensures
        spec_plist_chunks(file, pl, first, cnt) is None,
    decreases cnt,
{
    if bad < cnt - 1 {
        lemma_plist_chunks_none(file, pl, first, cnt - 1, bad);
    }
}

/// Search one substring index file, held in memory, for the tokenized
/// query, adding the documents of the final suffix-array interval to `set`.
/// Returns whether the global threshold `k` was crossed. Succeeds exactly
/// when the file's tables decode and validate (against `vocab`, where the
/// engine supplies the tokenizer's vocabulary size), every backward step
/// can be read, and a non-empty final interval maps onto readable posting
/// chunks; an empty interval adds nothing and reads no posting list.
pub fn search_file_substring(
    set: &mut UidSet,
    file: &Vec<u8>,
    file_id: u64,
    query: &Vec<u64>,
    vocab: Option<usize>,
    k: usize,
) -> (r: Result<bool, LavaError>)
    requires
        old(set).wf(),
    ensures
        final(set).wf(),
        r is Err ==> *final(set) == *old(set),
        r is Ok <==> spec_substring_search_ok(file@, query@, vocab),
        r matches Err(e) ==> e is Parse,
        r matches Ok(stopped) ==> spec_file_search_ok(
            old(set).items(),
            final(set).items(),
            file@,
            file_id,
            query@,
            k as int,
            stopped,
        ),
{
    let len: usize = file.len();
    if len < 32 {
        return Err(LavaError::Parse("malformed trailer".to_owned()));
    }
    let tail = vstd::slice::slice_subrange(file.as_slice(), len - 32, len);
    proof {
        assert(spec_le_u64s(tail@)[0] == spec_le_u64_at(tail@, 0));
        assert(spec_le_u64s(tail@)[1] == spec_le_u64_at(tail@, 8));
        assert(spec_le_u64s(tail@)[2] == spec_le_u64_at(tail@, 16));
        assert(spec_le_u64s(tail@)[3] == spec_le_u64_at(tail@, 24));
    }
    let trailer = parse_substring_trailer(tail, len as u64)?;
    let fm_off: usize = trailer.fm_chunk_offsets_offset as usize;
    let pl_off: usize = trailer.posting_list_offsets_offset as usize;
    let tc_off: usize = trailer.total_counts_offset as usize;
    let fm_offsets = crate::codec::decompress_u64_vec(
        vstd::slice::slice_subrange(file.as_slice(), fm_off, pl_off),
    )?;
    let pl_offsets = crate::codec::decompress_u64_vec(
        vstd::slice::slice_subrange(file.as_slice(), pl_off, tc_off),
    )?;
    let counts = crate::codec::decompress_u64_vec(
        vstd::slice::slice_subrange(file.as_slice(), tc_off, len - 32),
    )?;
    validate_fm_tables(&fm_offsets, &pl_offsets, &counts, trailer.n)?;
    proof {
        assert(spec_substring_meta(file@) == Some((fm_offsets@, pl_offsets@, counts@, trailer.n)));
    }
    if let Some(v) = vocab {
        if counts.len() != v {
            return Err(LavaError::data_corruption());
        }
    }
    let (start, end) = backward_search(file, &counts, &fm_offsets, query, trailer.n)?;
    proof {
        assert(spec_backward_search(
            file@,
            counts@,
            fm_offsets@,
            query@,
            query@.len() as int,
            0,
            trailer.n,
        ) == Some((start, end)));
    }
    if start >= end {
        proof {
            assert(spec_substring_search_ok(file@, query@, vocab));
            assert(spec_file_search_ok(
                old(set).items(),
                set.items(),
                file@,
                file_id,
                query@,
                k as int,
                false,
            ));
        }
        return Ok(false);
    }
    let cs: u64 = start / crate::fm::FM_CHUNK_TOKS;
    let ce: u64 = end / crate::fm::FM_CHUNK_TOKS;
    if ce + 1 >= pl_offsets.len() as u64 {
        proof {
            assert(!spec_substring_search_ok(file@, query@, vocab));
        }
        return Err(LavaError::data_corruption());
    }
    let cnt: usize = (ce - cs) as usize + 1;
    let npl: usize = pl_offsets.len();
    let mut chunks: Vec<Vec<u64>> = Vec::new();
    for idx in 0..cnt
        invariant
            *set == *old(set),
            old(set).wf(),
            cnt == ce - cs + 1,
            cs == start / FM_CHUNK_TOKS,
            ce == end / FM_CHUNK_TOKS,
            start < end,
            ce + 1 < npl,
            npl == pl_offsets@.len(),
            len == file@.len(),
            spec_substring_meta(file@) == Some((fm_offsets@, pl_offsets@, counts@, trailer.n)),
            vocab matches Some(v) ==> counts@.len() == v,
            spec_backward_search(
                file@,
                counts@,
                fm_offsets@,
                query@,
                query@.len() as int,
                0,
                trailer.n,
            ) == Some((start, end)),
            spec_plist_chunks(file@, pl_offsets@, cs as int, idx as int) == Some(
                chunks@.map_values(|c: Vec<u64>| c@),
            ),
            chunks@.len() == idx,
    {
        let ci: usize = cs as usize + idx;
        let lo: u64 = pl_offsets[ci];
        let hi: u64 = pl_offsets[ci + 1];
        if lo > hi || hi > len as u64 {
            proof {
                assert(spec_chunk_toks(file@, pl_offsets@, cs as int + idx as int) is None);
                lemma_plist_chunks_none(file@, pl_offsets@, cs as int, cnt as int, idx as int);
                assert(!spec_substring_search_ok(file@, query@, vocab));
            }
            return Err(LavaError::data_corruption());
        }
        let span = vstd::slice::slice_subrange(file.as_slice(), lo as usize, hi as usize);
        let chunk = match crate::codec::decompress_u64_vec(span) {
            Ok(c) => c,
            Err(e) => {
                proof {
                    assert(spec_chunk_toks(file@, pl_offsets@, cs as int + idx as int) is None);
                    lemma_plist_chunks_none(file@, pl_offsets@, cs as int, cnt as int, idx as int);
                    assert(!spec_substring_search_ok(file@, query@, vocab));
                }
                return Err(e);
            },
        };
        let ghost prior = chunks@;
        chunks.push(chunk);
        proof {
            assert(spec_chunk_toks(file@, pl_offsets@, cs as int + idx as int) == Some(chunk@));
            assert(chunks@.map_values(|c: Vec<u64>| c@) =~= prior.map_values(
                |c: Vec<u64>| c@,
            ).push(chunk@));
        }
    }
    let s0: usize = (start % crate::fm::FM_CHUNK_TOKS) as usize;
    let e0: usize = (end % crate::fm::FM_CHUNK_TOKS) as usize;
    let ghost chs = chunks@.map_values(|c: Vec<u64>| c@);
    let stopped = match collect_interval_uids(set, file_id, &chunks, s0, e0, k) {
        Ok(b) => b,
        Err(e) => {
            proof {
                assert(!spec_slices_ok(chs, s0 as int, e0 as int));
                assert(!spec_substring_search_ok(file@, query@, vocab));
            }
            return Err(e);
        },
    };
    proof {
        assert(set.items() == spec_collect_chunks(
            old(set).items(),
            file_id,
            chs,
            start as int % FM_CHUNK_TOKS as int,
            end as int % FM_CHUNK_TOKS as int,
            chs.len() as int,
            k as int,
        ));
        let first = start as int / FM_CHUNK_TOKS as int;
        let cnt_s = end as int / FM_CHUNK_TOKS as int - first + 1;
        assert(first == cs as int && cnt_s == cnt as int);
        assert(spec_plist_chunks(file@, pl_offsets@, first, cnt_s) == Some(chs));
        assert(spec_file_search_ok(
            old(set).items(),
            set.items(),
            file@,
            file_id,
            query@,
            k as int,
            stopped,
        ));
        assert(spec_substring_search_ok(file@, query@, vocab));
    }
    Ok(stopped)
}

} // verus!
