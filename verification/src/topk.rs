//! Final BM25 ranking: total ordering of accumulated binary32 scores by
//! their bit patterns, deterministic tie-breaks, and top-k selection.
//!
//! A score arrives as the raw bits of an IEEE-754 binary32 value. For any
//! two such values that are not NaN, the reindexing that flips the sign bit
//! of a non-negative pattern and complements a negative one orders the bit
//! patterns exactly as the floats order themselves, so ranking is pure
//! integer logic here.

use vstd::prelude::*;

use vstd::multiset::Multiset;
use vstd::relations::{sorted_by, total_ordering};
use vstd::seq_lib::lemma_sorted_unique;

verus! {

/// One merged candidate: the document key and its accumulated score bits.
#[derive(Clone, Copy, PartialEq, Eq, Structural)]
pub struct Scored {
    pub file_id: u64,
    pub uid: u64,
    /// Bits of the accumulated binary32 score.
    pub score_bits: u32,
}

/// Monotone reindexing of binary32 bit patterns: bigger key, bigger float.
pub open spec fn spec_order_key(bits: u32) -> u32 {
    if bits >= 0x8000_0000 {
        !bits
    } else {
        bits | 0x8000_0000
    }
}

/// Both binary32 zeros.
pub open spec fn spec_is_zero_score(bits: u32) -> bool {
    bits == 0u32 || bits == 0x8000_0000u32
}

/// Candidates that score zero are dropped before ranking.
pub open spec fn spec_keep_fn() -> spec_fn(Scored) -> bool {
    |e: Scored| !spec_is_zero_score(e.score_bits)
}

/// `a` ranks no later than `b`: descending score, ties by ascending
/// `(file_id, uid)`.
pub open spec fn spec_rank_le(a: Scored, b: Scored) -> bool {
    ||| spec_order_key(a.score_bits) > spec_order_key(b.score_bits)
    ||| (spec_order_key(a.score_bits) == spec_order_key(b.score_bits) && (a.file_id < b.file_id || (
    a.file_id == b.file_id && a.uid <= b.uid)))
}

/// The ranking order as a value, so every use names the same relation.
pub open spec fn spec_rank_le_fn() -> spec_fn(Scored, Scored) -> bool {
    |a: Scored, b: Scored| spec_rank_le(a, b)
}

/// Distinct bit patterns get distinct keys.
proof fn lemma_order_key_injective(x: u32, y: u32)
    requires
        spec_order_key(x) == spec_order_key(y),
    ensures
        x == y,
{
    assert((if x >= 0x8000_0000u32 {
        !x
    } else {
        x | 0x8000_0000u32
    }) == (if y >= 0x8000_0000u32 {
        !y
    } else {
        y | 0x8000_0000u32
    }) ==> x == y) by (bit_vector);
}

/// The ranking relation is a total ordering, so sorting by it has one
/// outcome.
pub proof fn lemma_rank_le_total()
    ensures
        total_ordering(spec_rank_le_fn()),
{
    let leq = spec_rank_le_fn();
    assert forall|x: Scored, y: Scored| #[trigger] leq(x, y) && #[trigger] leq(y, x) implies x
        == y by {
        lemma_order_key_injective(x.score_bits, y.score_bits);
    }
    assert forall|x: Scored, y: Scored| true implies #[trigger] leq(x, y) || #[trigger] leq(
        y,
        x,
    ) by {}
}

/// All candidates that score non-zero, ranked.
pub open spec fn spec_ranked(s: Seq<Scored>) -> Seq<Scored> {
    s.filter(spec_keep_fn()).sort_by(spec_rank_le_fn())
}

/// The first `k` ranked candidates, as `(file_id, uid)` pairs.
pub open spec fn spec_top_k(s: Seq<Scored>, k: int) -> Seq<(u64, u64)> {
    let ranked = spec_ranked(s);
    let cut = if k < ranked.len() {
        k
    } else {
        ranked.len() as int
    };
    ranked.take(cut).map_values(|e: Scored| (e.file_id, e.uid))
}

/// Exec counterpart of the ranking relation.
fn rank_le(a: &Scored, b: &Scored) -> (r: bool)
    ensures
        r == spec_rank_le(*a, *b),
{
    let ka: u32 = if a.score_bits >= 0x8000_0000 {
        !a.score_bits
    } else {
        a.score_bits | 0x8000_0000
    };
    let kb: u32 = if b.score_bits >= 0x8000_0000 {
        !b.score_bits
    } else {
        b.score_bits | 0x8000_0000
    };
    ka > kb || (ka == kb && (a.file_id < b.file_id || (a.file_id == b.file_id && a.uid <= b.uid)))
}

/// Select the `min(k, |non-zero-score candidates|)` best candidates:
/// descending score, ties broken by ascending `(file_id, uid)`. The result
/// is a function of the candidates alone, whatever their order.
pub fn top_k(entries: &Vec<Scored>, k: usize) -> (r: Vec<(u64, u64)>)
    ensures
        r@ == spec_top_k(entries@, k as int),
        r@.len() == vstd::math::min(k as int, spec_ranked(entries@).len() as int),
{
    let n: usize = entries.len();
    let mut kept: Vec<Scored> = Vec::new();
    for i in 0..n
        invariant
            n == entries.len(),
            kept@ == entries@.take(i as int).filter(spec_keep_fn()),
    {
        let e = entries[i];
        proof {
            reveal(Seq::filter);
            assert(entries@.take(i + 1).drop_last() =~= entries@.take(i as int));
            assert(entries@.take(i + 1).last() == e);
        }
        if !(e.score_bits == 0 || e.score_bits == 0x8000_0000) {
            kept.push(e);
        }
    }
    proof {
        assert(entries@.take(n as int) =~= entries@);
    }
    // insertion sort by the ranking relation
    let m: usize = kept.len();
    let mut out: Vec<Scored> = Vec::new();
    proof {
        assert(out@ =~= kept@.take(0));
    }
    for idx in 0..m
        invariant
            m == kept.len(),
            out@.len() == idx,
            sorted_by(out@, spec_rank_le_fn()),
            out@.to_multiset() == kept@.take(idx as int).to_multiset(),
    {
        let e = kept[idx];
        let mut pos: usize = 0;
        while pos < out.len()
            invariant
                pos <= out@.len(),
                sorted_by(out@, spec_rank_le_fn()),
                forall|j: int| 0 <= j < pos ==> spec_rank_le(#[trigger] out@[j], e),
            ensures
                pos <= out@.len(),
                forall|j: int| 0 <= j < pos ==> spec_rank_le(#[trigger] out@[j], e),
                pos < out@.len() ==> !spec_rank_le(out@[pos as int], e),
            decreases out@.len() - pos,
        {
            if !rank_le(&out[pos], &e) {
                break;
            }
            pos += 1;
        }
        let ghost prior = out@;
        out.insert(pos, e);
        proof {
            broadcast use vstd::seq_lib::to_multiset_insert;
            broadcast use vstd::seq_lib::group_to_multiset_ensures;

            prior.insert_ensures(pos as int, e);
            lemma_rank_le_total();
            assert forall|a: int, b: int| 0 <= a < b < out@.len() implies #[trigger] spec_rank_le_fn()(
                out@[a],
                out@[b],
            ) by {
                let leq = spec_rank_le_fn();
                if b < pos {
                    assert(leq(prior[a], prior[b]));
                } else if a < pos && b == pos {
                    assert(leq(prior[a], e));
                } else if a < pos && b > pos {
                    assert(leq(prior[a], prior[b - 1]));
                } else if a == pos {
                    // e goes before everything it displaced
                    assert(!leq(prior[pos as int], e));
                    assert(leq(e, prior[pos as int]));
                    if b > pos + 1 {
                        assert(leq(prior[pos as int], prior[b - 1]));
                    }
                } else {
                    assert(leq(prior[a - 1], prior[b - 1]));
                }
            }
            assert(kept@.take(idx + 1).drop_last() =~= kept@.take(idx as int));
            assert(kept@.take(idx + 1) =~= kept@.take(idx as int).push(e));
            assert(out@.to_multiset() =~= kept@.take(idx + 1).to_multiset());
        }
    }
    proof {
        assert(kept@.take(m as int) =~= kept@);
        lemma_rank_le_total();
        kept@.lemma_sort_by_ensures(spec_rank_le_fn());
        lemma_sorted_unique(out@, kept@.sort_by(spec_rank_le_fn()), spec_rank_le_fn());
        assert(out@ == spec_ranked(entries@));
    }
    // keep the first k
    let cut: usize = if k < out.len() {
        k
    } else {
        out.len()
    };
    let mut r: Vec<(u64, u64)> = Vec::new();
    for i in 0..cut
        invariant
            cut <= out@.len(),
            r@.len() == i,
            forall|j: int|
                0 <= j < i ==> #[trigger] r@[j] == (out@[j].file_id, out@[j].uid),
    {
        r.push((out[i].file_id, out[i].uid));
    }
    proof {
        assert(r@ =~= spec_top_k(entries@, k as int));
    }
    r
}

/// How often `x` survives filtering `s` by `p`, counted in the multiset.
proof fn lemma_filter_multiset_count<A>(s: Seq<A>, p: spec_fn(A) -> bool, x: A)
    ensures
        s.filter(p).to_multiset().count(x) == if p(x) {
            s.to_multiset().count(x)
        } else {
            0
        },
    decreases s.len(),
{
    broadcast use vstd::seq_lib::group_to_multiset_ensures;
    broadcast use vstd::multiset::group_multiset_axioms;

    reveal(Seq::filter);
    if s.len() == 0 {
        assert(s.filter(p) =~= Seq::<A>::empty());
        assert(s.to_multiset() =~= Multiset::<A>::empty());
        assert(s.filter(p).to_multiset() =~= Multiset::<A>::empty());
    } else {
        let dl = s.drop_last();
        lemma_filter_multiset_count(dl, p, x);
        assert(dl.push(s.last()) =~= s);
        assert(dl.push(s.last()).to_multiset() == dl.to_multiset().insert(s.last()));
        if p(s.last()) {
            assert(s.filter(p) == dl.filter(p).push(s.last()));
            assert(s.filter(p).to_multiset() == dl.filter(p).to_multiset().insert(s.last()));
        } else {
            assert(s.filter(p) == dl.filter(p));
        }
    }
}

/// Running the ranking twice on the same candidates gives the same output,
/// whatever order the per-chunk accumulation handed them over in: the top-k
/// list depends only on the multiset of scored candidates.
pub proof fn lemma_top_k_deterministic(s1: Seq<Scored>, s2: Seq<Scored>, k: int)
    requires
        s1.to_multiset() == s2.to_multiset(),
    ensures
        spec_top_k(s1, k) == spec_top_k(s2, k),
{
    let p = spec_keep_fn();
    let leq = spec_rank_le_fn();
    assert forall|x: Scored|
        true implies #[trigger] s1.filter(p).to_multiset().count(x) == s2.filter(
        p,
    ).to_multiset().count(x) by {
        lemma_filter_multiset_count(s1, p, x);
        lemma_filter_multiset_count(s2, p, x);
    }
    assert(s1.filter(p).to_multiset() =~= s2.filter(p).to_multiset());
    lemma_rank_le_total();
    s1.filter(p).lemma_sort_by_ensures(leq);
    s2.filter(p).lemma_sort_by_ensures(leq);
    lemma_sorted_unique(s1.filter(p).sort_by(leq), s2.filter(p).sort_by(leq), leq);
    assert(spec_ranked(s1) == spec_ranked(s2));
}

} // verus!
