//! Byte-level decoding shared by both index formats: little-endian 64-bit
//! integers, zstd decompression, and bincode-encoded `Vec<u64>` tables.

use vstd::prelude::*;

use crate::error::LavaError;
use std::io::Read;

verus! {

/// The little-endian `u64` stored at byte offset `i` of `b`.
pub open spec fn spec_le_u64_at(b: Seq<u8>, i: int) -> u64 {
    vstd::bytes::spec_u64_from_le_bytes(b.subrange(i, i + 8))
}

/// `b` read as a packed sequence of little-endian `u64`s.
pub open spec fn spec_le_u64s(b: Seq<u8>) -> Seq<u64>
    recommends
        b.len() % 8 == 0,
{
    Seq::new((b.len() / 8) as nat, |i: int| spec_le_u64_at(b, 8 * i))
}

/// What `bincode` (fixint, little-endian, trailing bytes allowed) makes of
/// `b` as a `Vec<u64>`: an 8-byte length prefix `n`, then `n` packed
/// little-endian elements; `None` when `b` is too short.
pub open spec fn spec_bincode_u64s(b: Seq<u8>) -> Option<Seq<u64>> {
    if b.len() < 8 {
        None
    } else {
        let n = spec_le_u64_at(b, 0) as int;
        if b.len() - 8 >= 8 * n {
            Some(Seq::new(n as nat, |i: int| spec_le_u64_at(b, 8 + 8 * i)))
        } else {
            None
        }
    }
}

/// What zstd makes of `b`: the decompressed stream, or `None` when `b` is
/// not a well-formed frame sequence. Inflation is a function of the input
/// bytes alone.
pub uninterp spec fn zstd_inflate(b: Seq<u8>) -> Option<Seq<u8>>;

/// Both steps of a compressed table read: inflate, then decode as a
/// length-prefixed `u64` vector.
pub open spec fn spec_decompress_u64s(b: Seq<u8>) -> Option<Seq<u64>> {
    match zstd_inflate(b) {
        Some(d) => spec_bincode_u64s(d),
        None => None,
    }
}

/// Relies on `zstd::stream::read::Decoder::new` and `std::io::Read::read_to_end`:
/// decoding a byte slice is deterministic in the bytes, succeeds exactly when
/// they form well-formed zstd frames, and streams the output.
#[verifier::external_body]
pub fn zstd_decompress(b: &[u8]) -> (r: Result<Vec<u8>, LavaError>)
    ensures
        r matches Ok(v) ==> zstd_inflate(b@) == Some(v@),
        r is Err ==> zstd_inflate(b@) is None,
        r matches Err(e) ==> e is Parse,
{
    let mut decompressor = match zstd::stream::read::Decoder::new(b) {
        Ok(d) => d,
        Err(e) => return Err(LavaError::Parse(format!("{}", e))),
    };
    let mut out: Vec<u8> = Vec::with_capacity(b.len());
    match decompressor.read_to_end(&mut out) {
        Ok(_) => Ok(out),
        Err(e) => Err(LavaError::Parse(format!("{}", e))),
    }
}

/// Relies on `bincode::deserialize::<Vec<u64>>` (fixint encoding,
/// little-endian, trailing bytes allowed): an 8-byte length prefix, then that
/// many packed 8-byte elements; fails exactly when the input is too short.
#[verifier::external_body]
pub fn bincode_decode_u64s(b: &[u8]) -> (r: Result<Vec<u64>, LavaError>)
    ensures
        r matches Ok(v) ==> spec_bincode_u64s(b@) == Some(v@),
        r is Err ==> spec_bincode_u64s(b@) is None,
        r matches Err(e) ==> e is Parse,
{
    match bincode::deserialize::<Vec<u64>>(b) {
        Ok(v) => Ok(v),
        Err(e) => Err(LavaError::Parse(format!("{}", e))),
    }
}

/// Decode a zstd-compressed, bincode-encoded table of 64-bit integers, the
/// shared shape of every offset table in both index formats.
pub fn decompress_u64_vec(b: &[u8]) -> (r: Result<Vec<u64>, LavaError>)
    ensures
        r matches Ok(v) ==> spec_decompress_u64s(b@) == Some(v@),
        r is Err ==> spec_decompress_u64s(b@) is None,
        r matches Err(e) ==> e is Parse,
{
    let inflated = zstd_decompress(b)?;
    let v = bincode_decode_u64s(inflated.as_slice())?;
    Ok(v)
}

/// Decode `bytes` as packed little-endian `u64`s; rejects a length that is
/// not a multiple of eight.
pub fn read_le_u64s(bytes: &[u8]) -> (r: Result<Vec<u64>, LavaError>)
    ensures
        r matches Ok(v) ==> bytes@.len() % 8 == 0 && v@ == spec_le_u64s(bytes@),
        r is Err <==> bytes@.len() % 8 != 0,
        r matches Err(e) ==> e is Parse,
{
    if bytes.len() % 8 != 0 {
        return Err(LavaError::data_corruption());
    }
    let n: usize = bytes.len() / 8;
    proof {
        assert(8 * (bytes@.len() as int / 8) <= bytes@.len());
    }
    let mut out: Vec<u64> = Vec::new();
    for i in 0..n
        invariant
            bytes@.len() == 8 * n,
            8 * n <= usize::MAX,
            out@.len() == i,
            forall|j: int| 0 <= j < i ==> out@[j] == spec_le_u64_at(bytes@, 8 * j),
    {
        let word = vstd::bytes::u64_from_le_bytes(vstd::slice::slice_subrange(bytes, 8 * i, 8 * i + 8));
        out.push(word);
    }
    proof {
        assert(out@ =~= spec_le_u64s(bytes@));
    }
    Ok(out)
}

} // verus!
