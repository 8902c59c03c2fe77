//! Thin facade over the external tokenizer: deserialization from the bytes
//! a substring index embeds, vocabulary size and decoding for vocabulary
//! dumps, and encoding of substring queries with lowercase folding and
//! removal of skip tokens.
//!
//! Deserialization, vocabulary size and decoding are functions of the
//! tokenizer and their arguments, and carry named results. Encoding is not:
//! a BPE model with merge dropout draws random numbers, and such a model
//! can arrive through `from_bytes`. So no contract names what `encode`
//! returns; the verified logic around it takes the returned ids as
//! arguments and is exact in them.

use vstd::prelude::*;

use crate::error::LavaError;

verus! {

#[verifier::external_type_specification]
#[verifier::external_body]
pub struct ExTokenizer(tokenizers::Tokenizer);

/// What `Tokenizer::from_bytes` builds from serialized tokenizer bytes:
/// a function of the bytes alone; `None` when they do not parse.
pub uninterp spec fn spec_tokenizer_of(bytes: Seq<u8>) -> Option<tokenizers::Tokenizer>;

/// The vocabulary size of a tokenizer, added tokens not counted.
pub uninterp spec fn spec_vocab_size(t: tokenizers::Tokenizer) -> usize;

/// What `Tokenizer::decode` makes of a sequence of token ids, with special
/// tokens kept; `None` when the tokenizer's decoder fails on them.
pub uninterp spec fn spec_decode(t: tokenizers::Tokenizer, ids: Seq<u32>) -> Option<Seq<char>>;

/// What lowercase folding (`char::to_lowercase`, flattened in order) makes
/// of a character sequence: a function of the characters alone.
pub uninterp spec fn spec_lower(s: Seq<char>) -> Seq<char>;

/// Relies on `tokenizers::Tokenizer::from_bytes`: deserialization reads the
/// bytes alone, and fails exactly when they do not describe a tokenizer.
#[verifier::external_body]
pub fn tokenizer_from_bytes(bytes: &Vec<u8>) -> (r: Result<tokenizers::Tokenizer, LavaError>)
    ensures
        r matches Ok(t) ==> spec_tokenizer_of(bytes@) == Some(t),
        r is Err <==> spec_tokenizer_of(bytes@) is None,
        r matches Err(e) ==> e is Parse,
{
    match tokenizers::Tokenizer::from_bytes(bytes) {
        Ok(t) => Ok(t),
        Err(e) => Err(LavaError::Parse(format!("{}", e))),
    }
}

/// Relies on `Tokenizer::get_vocab_size(false)`: the model's vocabulary
/// size, a function of the tokenizer alone.
#[verifier::external_body]
pub fn vocab_size(t: &tokenizers::Tokenizer) -> (n: usize)
    ensures
        n == spec_vocab_size(*t),
{
    t.get_vocab_size(false)
}

/// Relies on `Tokenizer::decode(ids, false)`: a function of the tokenizer
/// and the ids alone.
#[verifier::external_body]
pub fn decode_ids(t: &tokenizers::Tokenizer, ids: &Vec<u32>) -> (r: Result<String, LavaError>)
    ensures
        r matches Ok(s) ==> spec_decode(*t, ids@) == Some(s@),
        r is Err <==> spec_decode(*t, ids@) is None,
        r matches Err(e) ==> e is Parse,
{
    match t.decode(ids.as_slice(), false) {
        Ok(s) => Ok(s),
        Err(e) => Err(LavaError::Parse(format!("{}", e))),
    }
}

/// Relies on `Tokenizer::encode(s, false)` and `Encoding::get_ids`: the ids
/// of the encoding. The result is *not* a function of the tokenizer and the
/// text — a BPE model with merge dropout randomizes — so nothing is claimed
/// of the ids; callers state what they do with whatever came back.
#[verifier::external_body]
pub fn encode_chars(t: &tokenizers::Tokenizer, s: &Vec<char>) -> (r: Result<Vec<u32>, LavaError>)
    ensures
        r matches Err(e) ==> e is Parse,
{
    let text: String = s.iter().collect();
    match t.encode(text, false) {
        Ok(encoding) => Ok(encoding.get_ids().to_vec()),
        Err(e) => Err(LavaError::Parse(format!("{}", e))),
    }
}

/// Relies on `char::to_lowercase`, applied to each character and flattened
/// in order: a function of the characters alone.
#[verifier::external_body]
pub fn lowercase_chars(s: &Vec<char>) -> (r: Vec<char>)
    ensures
        r@ == spec_lower(s@),
{
    s.iter().flat_map(|c| c.to_lowercase()).collect()
}

/// The characters whose tokenizations are stripped from substring queries:
/// ASCII whitespace and punctuation, as fixed at construction time.
pub open spec fn spec_skip_chars() -> Seq<char> {
    seq![
        ' ', ',', '.', '?', '!', ';', ':', '\'', '"', '(', ')', '[', ']', '{', '}', '<', '>', '/',
        '\\', '|', '@', '#', '$', '%', '^', '&', '*', '-', '_', '=', '+', '~', '`',
    ]
}

/// Exec copy of the skip-character set.
pub fn skip_chars() -> (v: Vec<char>)
    ensures
        v@ == spec_skip_chars(),
{
    let v: Vec<char> = vec![
        ' ', ',', '.', '?', '!', ';', ':', '\'', '"', '(', ')', '[', ']', '{', '}', '<', '>', '/',
        '\\', '|', '@', '#', '$', '%', '^', '&', '*', '-', '_', '=', '+', '~', '`',
    ];
    proof {
        assert(v@ =~= spec_skip_chars());
    }
    v
}

/// The three probes encoded for one skip character: the character alone,
/// with a leading space, and with a trailing space.
pub open spec fn spec_skip_variant(c: char, v: int) -> Seq<char> {
    if v == 0 {
        seq![c]
    } else if v == 1 {
        seq![' ', c]
    } else {
        seq![c, ' ']
    }
}

/// Every id of every pooled probe result, without duplicates, in first
/// appearance order.
pub open spec fn spec_pool_ids(acc: Seq<u32>, ids: Seq<u32>) -> Seq<u32>
    decreases ids.len(),
{
    if ids.len() == 0 {
        acc
    } else {
        let with = if acc.contains(ids.first()) {
            acc
        } else {
            acc.push(ids.first())
        };
        spec_pool_ids(with, ids.drop_first())
    }
}

/// Fold one probe's ids into the pool.
fn pool_ids(acc: &mut Vec<u32>, ids: &Vec<u32>)
    ensures
        final(acc)@ == spec_pool_ids(old(acc)@, ids@),
{
    let n: usize = ids.len();
    proof {
        assert(ids@.skip(0) =~= ids@);
    }
    let mut i: usize = 0;
    while i < n
        invariant
            i <= n,
            n == ids@.len(),
            spec_pool_ids(old(acc)@, ids@) == spec_pool_ids(acc@, ids@.skip(i as int)),
        decreases n - i,
    {
        let id = ids[i];
        let mut present = false;
        let na: usize = acc.len();
        let ghost before = acc@;
        for q in 0..na
            invariant
                na == acc@.len(),
                acc@ == before,
                present <==> exists|z: int| 0 <= z < q && acc@[z] == id,
        {
            if acc[q] == id {
                present = true;
            }
        }
        proof {
            assert(present <==> acc@.contains(id));
            assert(ids@.skip(i as int).first() == ids@[i as int]);
            assert(ids@.skip(i as int).drop_first() =~= ids@.skip(i + 1));
        }
        if !present {
            acc.push(id);
        }
        i = i + 1;
    }
    proof {
        assert(ids@.skip(n as int) =~= Seq::<u32>::empty());
    }
}

/// Encode every probe of every skip character — the character alone, with a
/// leading and with a trailing space — and pool the returned ids, each once.
/// What the probes return is the tokenizer's business; the pool holds
/// exactly the ids they returned in this run, so the result carries no
/// duplicates.
pub fn build_skip_tokens(t: &tokenizers::Tokenizer) -> (r: Result<Vec<u32>, LavaError>)
    ensures
        r matches Ok(skip) ==> forall|a: int, b: int|
            0 <= a < b < skip@.len() ==> skip@[a] != skip@[b],
        r matches Err(e) ==> e is Parse,
{
    let chars = skip_chars();
    let nc: usize = chars.len();
    let mut skip: Vec<u32> = Vec::new();
    for i in 0..nc
        invariant
            nc == chars@.len(),
            forall|a: int, b: int| 0 <= a < b < skip@.len() ==> skip@[a] != skip@[b],
    {
        let c = chars[i];
        let mut v: usize = 0;
        while v < 3
            invariant
                v <= 3,
                forall|a: int, b: int| 0 <= a < b < skip@.len() ==> skip@[a] != skip@[b],
            decreases 3 - v,
        {
            let probe: Vec<char> = if v == 0 {
                vec![c]
            } else if v == 1 {
                vec![' ', c]
            } else {
                vec![c, ' ']
            };
            let ids = encode_chars(t, &probe)?;
            let ghost before = skip@;
            pool_ids(&mut skip, &ids);
            proof {
                lemma_pool_ids_distinct(before, ids@);
            }
            v = v + 1;
        }
    }
    Ok(skip)
}

/// Pooling keeps the pool duplicate-free.
proof fn lemma_pool_ids_distinct(acc: Seq<u32>, ids: Seq<u32>)
    requires
        forall|a: int, b: int| 0 <= a < b < acc.len() ==> acc[a] != acc[b],
    ensures
        forall|a: int, b: int|
            0 <= a < b < spec_pool_ids(acc, ids).len() ==> spec_pool_ids(acc, ids)[a]
                != spec_pool_ids(acc, ids)[b],
    decreases ids.len(),
{
    if ids.len() > 0 {
        let with = if acc.contains(ids.first()) {
            acc
        } else {
            acc.push(ids.first())
        };
        assert(spec_pool_ids(acc, ids) == spec_pool_ids(with, ids.drop_first()));
        assert forall|a: int, b: int| 0 <= a < b < with.len() implies with[a] != with[b] by {
            if !acc.contains(ids.first()) && b == with.len() - 1 {
                assert(with[a] == acc[a]);
            }
        }
        lemma_pool_ids_distinct(with, ids.drop_first());
    }
}

/// Keep the ids that are not skip tokens, in order.
pub open spec fn spec_filter_skip(ids: Seq<u32>, skip: Seq<u32>) -> Seq<u32> {
    ids.filter(|id: u32| !skip.contains(id))
}

/// Remove every pooled skip id from an encoded query.
pub fn filter_skip(ids: &Vec<u32>, skip: &Vec<u32>) -> (r: Vec<u32>)
    ensures
        r@ == spec_filter_skip(ids@, skip@),
{
    let n: usize = ids.len();
    let mut out: Vec<u32> = Vec::new();
    for i in 0..n
        invariant
            n == ids@.len(),
            out@ == ids@.take(i as int).filter(|id: u32| !skip@.contains(id)),
    {
        let id = ids[i];
        let mut present = false;
        let ns: usize = skip.len();
        for q in 0..ns
            invariant
                ns == skip@.len(),
                present <==> exists|z: int| 0 <= z < q && skip@[z] == id,
        {
            if skip[q] == id {
                present = true;
            }
        }
        proof {
            assert(present <==> skip@.contains(id));
            reveal(Seq::filter);
            assert(ids@.take(i + 1).drop_last() =~= ids@.take(i as int));
            assert(ids@.take(i + 1).last() == id);
        }
        if !present {
            out.push(id);
        }
    }
    proof {
        assert(ids@.take(n as int) =~= ids@);
    }
    out
}

/// Removing skip tokens twice removes no more than removing them once.
pub proof fn lemma_filter_skip_idempotent(ids: Seq<u32>, skip: Seq<u32>)
    ensures
        spec_filter_skip(spec_filter_skip(ids, skip), skip) == spec_filter_skip(ids, skip),
    decreases ids.len(),
{
    reveal(Seq::filter);
    let p = |id: u32| !skip.contains(id);
    if ids.len() == 0 {
        assert(ids.filter(p) =~= ids);
    } else {
        lemma_filter_skip_idempotent(ids.drop_last(), skip);
        if p(ids.last()) {
            assert(ids.filter(p) == ids.drop_last().filter(p).push(ids.last()));
            assert(ids.filter(p).drop_last() =~= ids.drop_last().filter(p));
        } else {
            assert(ids.filter(p) == ids.drop_last().filter(p));
        }
    }
}

/// Tokenize a substring query the way the index was built: fold to
/// lowercase, encode without special tokens, and strip every skip token
/// from whatever ids the encoder returned. The result is exactly the
/// skip-filtered encoding of this run, widened to `u64`, so it never holds
/// a skip id.
pub fn prepare_substring_query(t: &tokenizers::Tokenizer, query: &Vec<char>, skip: &Vec<u32>) -> (r:
    Result<Vec<u64>, LavaError>)
    ensures
        r matches Ok(q) ==> {
            &&& exists|ids: Seq<u32>|
                q@ == (#[trigger] spec_filter_skip(ids, skip@)).map_values(|id: u32| id as u64)
            &&& forall|j: int|
                0 <= j < q@.len() ==> !skip@.contains(((#[trigger] q@[j]) as u32))
        },
        r matches Err(e) ==> e is Parse,
{
    let lowered = lowercase_chars(query);
    let ids = encode_chars(t, &lowered)?;
    let kept = filter_skip(&ids, skip);
    proof {
        broadcast use vstd::seq_lib::group_filter_ensures;

        assert forall|j: int| 0 <= j < kept@.len() implies !skip@.contains(#[trigger] kept@[j]) by {
            assert(kept@[j] == ids@.filter(|id: u32| !skip@.contains(id))[j]);
        }
    }
    let nk: usize = kept.len();
    let mut out: Vec<u64> = Vec::new();
    for i in 0..nk
        invariant
            nk == kept@.len(),
            out@.len() == i,
            forall|j: int| 0 <= j < i ==> out@[j] == (#[trigger] kept@[j]) as u64,
    {
        out.push(kept[i] as u64);
    }
    proof {
        assert(out@ =~= spec_filter_skip(ids@, skip@).map_values(|id: u32| id as u64));
        assert forall|j: int| 0 <= j < out@.len() implies !skip@.contains(
            ((#[trigger] out@[j]) as u32),
        ) by {
            assert(out@[j] == kept@[j] as u64);
        }
    }
    Ok(out)
}

/// Compare two byte strings.
fn bytes_equal(a: &Vec<u8>, b: &Vec<u8>) -> (r: bool)
    ensures
        r <==> a@ == b@,
{
    if a.len() != b.len() {
        return false;
    }
    let n: usize = a.len();
    for i in 0..n
        invariant
            n == a@.len(),
            a@.len() == b@.len(),
            forall|j: int| 0 <= j < i ==> a@[j] == b@[j],
    {
        if a[i] != b[i] {
            return false;
        }
    }
    proof {
        assert(a@ =~= b@);
    }
    true
}

/// Files queried together must embed byte-identical compressed tokenizers;
/// the shared bytes come back. No file at all is a caller error, a mismatch
/// is the fatal inconsistency the engine reports.
pub fn validate_identical_tokenizers(all: &Vec<Vec<u8>>) -> (r: Result<Vec<u8>, LavaError>)
    ensures
        r matches Ok(shared) ==> {
            &&& all@.len() >= 1
            &&& shared@ == all@[0]@
            &&& forall|i: int| 0 <= i < all@.len() ==> (#[trigger] all@[i])@ == all@[0]@
        },
        r is Err <==> (all@.len() == 0 || exists|i: int|
            0 <= i < all@.len() && (#[trigger] all@[i])@ != all@[0]@),
        r matches Err(e) ==> {
            ||| (e is InvalidInput && all@.len() == 0)
            ||| (e is Inconsistent && all@.len() >= 1)
        },
{
    if all.len() == 0 {
        return Err(LavaError::InvalidInput);
    }
    let n: usize = all.len();
    for i in 1..n
        invariant
            n == all@.len(),
            n >= 1,
            forall|j: int| 0 <= j < i ==> (#[trigger] all@[j])@ == all@[0]@,
    {
        if !bytes_equal(&all[i], &all[0]) {
            return Err(LavaError::Inconsistent);
        }
    }
    let shared = all[0].clone();
    proof {
        assert(shared@ == all@[0]@);
    }
    Ok(shared)
}

/// Decode the whole vocabulary, one id at a time, for vocabulary dumps.
/// Succeeds exactly when the tokenizer can decode every single id of its
/// vocabulary.
pub fn vocab_strings(t: &tokenizers::Tokenizer) -> (r: Result<Vec<String>, LavaError>)
    ensures
        r matches Ok(v) ==> {
            &&& v@.len() == spec_vocab_size(*t)
            &&& forall|i: int|
                0 <= i < v@.len() ==> spec_decode(*t, seq![i as u32]) == Some(
                    (#[trigger] v@[i])@,
                )
        },
        r is Err <==> exists|i: int|
            0 <= i < spec_vocab_size(*t) && #[trigger] spec_decode(*t, seq![i as u32]) is None,
        r matches Err(e) ==> e is Parse,
{
    let n: usize = vocab_size(t);
    let mut out: Vec<String> = Vec::new();
    for i in 0..n
        invariant
            n == spec_vocab_size(*t),
            out@.len() == i,
            forall|j: int|
                0 <= j < i ==> spec_decode(*t, seq![j as u32]) == Some((#[trigger] out@[j])@),
    {
        let mut ids: Vec<u32> = Vec::new();
        ids.push(i as u32);
        proof {
            assert(ids@ =~= seq![i as u32]);
        }
        let s = match decode_ids(t, &ids) {
            Ok(s) => s,
            Err(e) => {
                proof {
                    assert(spec_decode(*t, seq![i as u32]) is None);
                }
                return Err(e);
            },
        };
        out.push(s);
    }
    proof {
        assert forall|i: int| 0 <= i < spec_vocab_size(*t) implies !(#[trigger] spec_decode(
            *t,
            seq![i as u32],
        ) is None) by {
            assert(spec_decode(*t, seq![i as u32]) == Some(out@[i]@));
        }
    }
    Ok(out)
}

} // verus!
