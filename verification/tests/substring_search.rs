use lava_search::codec::zstd_decompress;
use lava_search::error::LavaError;
use lava_search::fm::{backward_search, block_rank, FM_CHUNK_TOKS};
use lava_search::substring::{
    collect_interval_uids, parse_substring_trailer, search_file_substring, validate_fm_tables,
    UidSet,
};

fn zstd_bincode(v: &Vec<u64>) -> Vec<u8> {
    let ser = bincode::serialize(v).unwrap();
    zstd::stream::encode_all(&ser[..], 0).unwrap()
}

/// Burrows-Wheeler transform of a token sequence, by sorted rotations.
fn bwt_of(tokens: &[u64]) -> (Vec<u64>, Vec<usize>) {
    let n = tokens.len();
    let mut rotations: Vec<usize> = (0..n).collect();
    rotations.sort_by(|&a, &b| {
        let ra: Vec<u64> = (0..n).map(|i| tokens[(a + i) % n]).collect();
        let rb: Vec<u64> = (0..n).map(|i| tokens[(b + i) % n]).collect();
        ra.cmp(&rb)
    });
    let bwt = rotations.iter().map(|&r| tokens[(r + n - 1) % n]).collect();
    (bwt, rotations)
}

/// Lay out a substring index file for one in-memory document: the embedded
/// compressed tokenizer, one FM rank block and one posting chunk, the three
/// compressed tables, and the 32-byte trailer. Only works while the BWT
/// fits a single rank block.
fn build_substring_file(tokenizer_json: &[u8], bwt: &Vec<u64>, uids: &Vec<u64>, vocab: usize) -> Vec<u8> {
    assert!(bwt.len() <= FM_CHUNK_TOKS as usize);
    let n = bwt.len() as u64;
    let mut file: Vec<u8> = Vec::new();
    let comp_tok = zstd::stream::encode_all(tokenizer_json, 0).unwrap();
    file.extend_from_slice(&(comp_tok.len() as u64).to_le_bytes());
    file.extend_from_slice(&comp_tok);

    let fm_chunk_start = file.len() as u64;
    // one rank block: an all-zero checkpoint header, then the whole slice
    let mut block: Vec<u64> = vec![0; vocab];
    block.extend_from_slice(bwt);
    file.extend_from_slice(&zstd_bincode(&block));
    let fm_chunk_end = file.len() as u64;
    file.extend_from_slice(&zstd_bincode(uids));
    let plist_chunk_end = file.len() as u64;

    // C table: occurrences of smaller tokens over the whole BWT
    let mut counts: Vec<u64> = vec![0; vocab];
    for t in 1..vocab {
        counts[t] = counts[t - 1] + bwt.iter().filter(|&&x| x == (t - 1) as u64).count() as u64;
    }

    let fm_table_off = file.len() as u64;
    file.extend_from_slice(&zstd_bincode(&vec![fm_chunk_start, fm_chunk_end]));
    let pl_table_off = file.len() as u64;
    file.extend_from_slice(&zstd_bincode(&vec![fm_chunk_end, plist_chunk_end]));
    let counts_off = file.len() as u64;
    file.extend_from_slice(&zstd_bincode(&counts));

    file.extend_from_slice(&fm_table_off.to_le_bytes());
    file.extend_from_slice(&pl_table_off.to_le_bytes());
    file.extend_from_slice(&counts_off.to_le_bytes());
    file.extend_from_slice(&n.to_le_bytes());
    file
}

/// Reference rank over the whole BWT, the oracle the FM chunks must match.
fn brute_rank(bwt: &[u64], t: u64, p: usize) -> u64 {
    bwt[..p].iter().filter(|&&x| x == t).count() as u64
}

const TOKS: [&str; 8] = ["$", "samsung", "galaxy", "note", "is", "a", "phone", "big"];

fn id_of(word: &str) -> u64 {
    TOKS.iter().position(|&w| w == word).unwrap() as u64
}

fn corpus_tokens() -> Vec<u64> {
    // "samsung galaxy note is a phone note is big $"
    ["samsung", "galaxy", "note", "is", "a", "phone", "note", "is", "big", "$"]
        .iter()
        .map(|w| id_of(w))
        .collect()
}

#[test]
fn test_block_rank_matches_brute_force() {
    let (bwt, _) = bwt_of(&corpus_tokens());
    // checkpoint header of a block that starts three positions in
    let offset = 3;
    let mut chunk: Vec<u64> = (0..8).map(|t| brute_rank(&bwt, t, offset)).collect();
    chunk.extend_from_slice(&bwt[offset..]);
    for t in 0..8u64 {
        for p in 0..=(bwt.len() - offset) {
            assert_eq!(block_rank(&chunk, 8, t, p).unwrap(), brute_rank(&bwt, t, offset + p));
        }
    }
    // a position past the block is a corrupt read
    assert!(block_rank(&chunk, 8, 0, bwt.len()).is_err());
}

#[test]
fn test_backward_search_finds_each_token() {
    let tokens = corpus_tokens();
    let (bwt, _) = bwt_of(&tokens);
    let uids: Vec<u64> = vec![42; bwt.len()];
    let file = build_substring_file(b"{}", &bwt, &uids, 8);
    let trailer = parse_substring_trailer(&file[file.len() - 32..], file.len() as u64).unwrap();
    let fm_offsets = lava_search::codec::decompress_u64_vec(
        &file[trailer.fm_chunk_offsets_offset as usize..trailer.posting_list_offsets_offset as usize],
    )
    .unwrap();
    let counts = lava_search::codec::decompress_u64_vec(
        &file[trailer.total_counts_offset as usize..file.len() - 32],
    )
    .unwrap();
    for t in 0..8u64 {
        let occurrences = tokens.iter().filter(|&&x| x == t).count() as u64;
        let (s, e) = backward_search(&file, &counts, &fm_offsets, &vec![t], trailer.n).unwrap();
        assert_eq!(e - s, occurrences, "token {}", t);
    }
    // a two-token phrase occurring twice
    let q = vec![id_of("note"), id_of("is")];
    let (s, e) = backward_search(&file, &counts, &fm_offsets, &q, trailer.n).unwrap();
    assert_eq!(e - s, 2);
    // a phrase that never occurs
    let q = vec![id_of("phone"), id_of("samsung")];
    let (s, e) = backward_search(&file, &counts, &fm_offsets, &q, trailer.n).unwrap();
    assert!(s >= e);
}

#[test]
fn test_search_file_substring_round_trip() {
    // a query for a substring of the document returns the document's uid
    let tokens = corpus_tokens();
    let (bwt, _) = bwt_of(&tokens);
    let uids: Vec<u64> = vec![42; bwt.len()];
    let file = build_substring_file(b"{}", &bwt, &uids, 8);
    let query = vec![id_of("galaxy"), id_of("note")];
    let mut set = UidSet::new();
    let stopped = search_file_substring(&mut set, &file, 0, &query, Some(8), 10).unwrap();
    assert!(!stopped);
    assert_eq!(set.into_vec(), vec![(0, 42)]);
}

#[test]
fn test_search_file_substring_empty_interval() {
    // the first backward step empties the interval: nothing is collected
    let tokens = corpus_tokens();
    let (bwt, _) = bwt_of(&tokens);
    let uids: Vec<u64> = vec![42; bwt.len()];
    let file = build_substring_file(b"{}", &bwt, &uids, 9);
    // token 8 never occurs in the BWT
    let mut set = UidSet::new();
    let stopped = search_file_substring(&mut set, &file, 0, &vec![8], Some(9), 10).unwrap();
    assert!(!stopped);
    assert_eq!(set.into_vec(), Vec::<(u64, u64)>::new());
}

#[test]
fn test_validate_fm_tables_rejects_bad_lengths() {
    let fm = vec![0u64, 10];
    let pl = vec![10u64, 20];
    let counts = vec![0u64, 1, 1];
    assert!(validate_fm_tables(&fm, &pl, &counts, 5).is_ok());
    match validate_fm_tables(&vec![0u64, 10, 20], &pl, &counts, 5) {
        Err(LavaError::Parse(m)) => assert_eq!(m, "data corruption"),
        other => panic!("expected parse error, got {:?}", other),
    }
    match validate_fm_tables(&fm, &pl, &vec![3u64, 1], 5) {
        Err(LavaError::Parse(m)) => assert_eq!(m, "data corruption"),
        other => panic!("expected parse error, got {:?}", other),
    }
}

#[test]
fn test_collect_interval_uids_spans_chunks() {
    // suffix of the first chunk, whole middle chunk, prefix of the last
    let chunks = vec![vec![1u64, 2, 3], vec![4u64, 5], vec![6u64, 7, 8]];
    let mut set = UidSet::new();
    let stopped = collect_interval_uids(&mut set, 9, &chunks, 1, 2, 100).unwrap();
    assert!(!stopped);
    assert_eq!(set.into_vec(), vec![(9, 2), (9, 3), (9, 4), (9, 5), (9, 6), (9, 7)]);
}

#[test]
fn test_collect_interval_uids_stops_past_k() {
    let chunks = vec![vec![1u64, 2, 3], vec![4u64, 5], vec![6u64, 7, 8]];
    let mut set = UidSet::new();
    // pairs are inserted one at a time; the collection stops the moment
    // the set passes k, so a truncated result holds exactly k + 1 pairs
    let stopped = collect_interval_uids(&mut set, 0, &chunks, 0, 3, 1).unwrap();
    assert!(stopped);
    assert_eq!(set.into_vec(), vec![(0, 1), (0, 2)]);
}

#[test]
fn test_collect_interval_uids_truncates_to_k_plus_one() {
    let chunks = vec![vec![10u64, 11, 12, 13, 14]];
    let mut set = UidSet::new();
    let stopped = collect_interval_uids(&mut set, 0, &chunks, 0, 5, 0).unwrap();
    assert!(stopped);
    assert_eq!(set.into_vec(), vec![(0, 10)]);
}

#[test]
fn test_collect_interval_uids_deduplicates() {
    let chunks = vec![vec![5u64, 5, 5]];
    let mut set = UidSet::new();
    set.insert((0, 5));
    let stopped = collect_interval_uids(&mut set, 0, &chunks, 0, 3, 10).unwrap();
    assert!(!stopped);
    assert_eq!(set.into_vec(), vec![(0, 5)]);
}

/// Lay out a substring file whose BWT spans several rank blocks, each block
/// paired with its own posting chunk.
fn build_chunked_substring_file(tokens: &Vec<u64>, uids: &Vec<u64>, vocab: usize) -> Vec<u8> {
    let n = tokens.len() as u64;
    let block = FM_CHUNK_TOKS as usize;
    let mut file: Vec<u8> = Vec::new();
    let comp_tok = zstd::stream::encode_all(&b"{}"[..], 0).unwrap();
    file.extend_from_slice(&(comp_tok.len() as u64).to_le_bytes());
    file.extend_from_slice(&comp_tok);

    let mut fm_offsets: Vec<u64> = Vec::new();
    let mut seen: Vec<u64> = vec![0; vocab];
    for chunk in tokens.chunks(block) {
        fm_offsets.push(file.len() as u64);
        // checkpoint header: occurrences of each token before this block
        let mut data = seen.clone();
        data.extend_from_slice(chunk);
        file.extend_from_slice(&zstd_bincode(&data));
        for &t in chunk {
            seen[t as usize] += 1;
        }
    }
    fm_offsets.push(file.len() as u64);

    let mut pl_offsets: Vec<u64> = Vec::new();
    for chunk in uids.chunks(block) {
        pl_offsets.push(file.len() as u64);
        file.extend_from_slice(&zstd_bincode(&chunk.to_vec()));
    }
    pl_offsets.push(file.len() as u64);

    let mut counts: Vec<u64> = vec![0; vocab];
    for t in 1..vocab {
        counts[t] = counts[t - 1] + tokens.iter().filter(|&&x| x == (t - 1) as u64).count() as u64;
    }

    let fm_table_off = file.len() as u64;
    file.extend_from_slice(&zstd_bincode(&fm_offsets));
    let pl_table_off = file.len() as u64;
    file.extend_from_slice(&zstd_bincode(&pl_offsets));
    let counts_off = file.len() as u64;
    file.extend_from_slice(&zstd_bincode(&counts));

    file.extend_from_slice(&fm_table_off.to_le_bytes());
    file.extend_from_slice(&pl_table_off.to_le_bytes());
    file.extend_from_slice(&counts_off.to_le_bytes());
    file.extend_from_slice(&n.to_le_bytes());
    file
}

fn chunked_corpus() -> (Vec<u64>, Vec<u64>) {
    // 600 zeros, 1100 ones, 500 twos: a single-token query for token 1
    // lands on the interval [600, 1700), which crosses a block boundary
    let mut tokens: Vec<u64> = Vec::new();
    tokens.extend(std::iter::repeat(0u64).take(600));
    tokens.extend(std::iter::repeat(1u64).take(1100));
    tokens.extend(std::iter::repeat(2u64).take(500));
    let uids: Vec<u64> = (0..tokens.len() as u64).collect();
    (tokens, uids)
}

#[test]
fn test_interval_spanning_blocks_collects_both_chunks() {
    let (tokens, uids) = chunked_corpus();
    let file = build_chunked_substring_file(&tokens, &uids, 3);
    let mut set = UidSet::new();
    let stopped = search_file_substring(&mut set, &file, 5, &vec![1], None, 2000).unwrap();
    assert!(!stopped);
    let expected: Vec<(u64, u64)> = (600u64..1700).map(|u| (5, u)).collect();
    assert_eq!(set.into_vec(), expected);
}

#[test]
fn test_interval_spanning_blocks_stops_past_k() {
    let (tokens, uids) = chunked_corpus();
    let file = build_chunked_substring_file(&tokens, &uids, 3);
    let mut set = UidSet::new();
    let stopped = search_file_substring(&mut set, &file, 0, &vec![1], None, 10).unwrap();
    // collection stops at the insert that passes k: exactly k + 1 results
    assert!(stopped);
    assert_eq!(set.into_vec(), (600u64..611).map(|u| (0, u)).collect::<Vec<_>>());
}

#[test]
fn test_counts_length_must_match_vocabulary() {
    // the engine knows the tokenizer's vocabulary; a counts table of any
    // other length is a corrupt file
    let tokens = corpus_tokens();
    let (bwt, _) = bwt_of(&tokens);
    let uids: Vec<u64> = vec![42; bwt.len()];
    let file = build_substring_file(b"{}", &bwt, &uids, 8);
    let mut set = UidSet::new();
    match search_file_substring(&mut set, &file, 0, &vec![1], Some(9), 10) {
        Err(LavaError::Parse(m)) => assert_eq!(m, "data corruption"),
        other => panic!("expected parse error, got {:?}", other),
    }
    assert_eq!(set.len(), 0);
    assert!(search_file_substring(&mut set, &file, 0, &vec![1], Some(8), 10).is_ok());
}

#[test]
fn test_truncated_trailer_is_rejected() {
    let file: Vec<u8> = vec![0; 16];
    let mut set = UidSet::new();
    match search_file_substring(&mut set, &file, 0, &vec![1], None, 10) {
        Err(LavaError::Parse(_)) => {}
        other => panic!("expected parse error, got {:?}", other),
    }
}

#[test]
fn test_embedded_tokenizer_bytes_round_trip() {
    let json = br#"{"version":"1.0"}"#;
    let (bwt, _) = bwt_of(&corpus_tokens());
    let uids: Vec<u64> = vec![1; bwt.len()];
    let file = build_substring_file(json, &bwt, &uids, 8);
    let size = u64::from_le_bytes(file[0..8].try_into().unwrap()) as usize;
    let compressed = &file[8..8 + size];
    assert_eq!(zstd_decompress(compressed).unwrap(), json.to_vec());
}
