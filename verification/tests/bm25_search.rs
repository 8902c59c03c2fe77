use lava_search::bm25::{
    add_u64_totals, group_postings, load_bm25_meta, plan_chunk_reads, read_plan_chunk,
    token_counts_for_query, extract_postings, PlistTables,
};
use lava_search::codec::{decompress_u64_vec, read_le_u64s};
use lava_search::error::LavaError;
use lava_search::plist::search_compressed;
use lava_search::topk::{top_k, Scored};

fn zstd_bincode(v: &Vec<u64>) -> Vec<u8> {
    let ser = bincode::serialize(v).unwrap();
    zstd::stream::encode_all(&ser[..], 0).unwrap()
}

/// Lay out a BM25 file: compressed posting chunks, the compressed term
/// dictionary, the compressed offsets table, and the 24-byte trailer.
fn build_bm25_file(
    chunks: &[Vec<u8>],
    boundaries: &[u64],
    token_counts: &Vec<u64>,
    num_documents: u64,
) -> Vec<u8> {
    let mut file: Vec<u8> = Vec::new();
    let mut offsets: Vec<u64> = Vec::new();
    for chunk in chunks {
        offsets.push(file.len() as u64);
        let compressed = zstd::stream::encode_all(&chunk[..], 0).unwrap();
        file.extend_from_slice(&compressed);
    }
    offsets.push(file.len() as u64);
    let term_dict_offset = file.len() as u64;
    file.extend_from_slice(&zstd_bincode(token_counts));
    let plist_offsets_offset = file.len() as u64;
    let mut words = offsets.clone();
    words.extend_from_slice(boundaries);
    words.push(u64::MAX); // boundary sentinel pairing the offset sentinel
    assert_eq!(words.len() % 2, 0);
    file.extend_from_slice(&zstd_bincode(&words));
    file.extend_from_slice(&term_dict_offset.to_le_bytes());
    file.extend_from_slice(&plist_offsets_offset.to_le_bytes());
    file.extend_from_slice(&num_documents.to_le_bytes());
    file
}

fn pairs(entries: &[(u64, u64)]) -> Vec<u8> {
    let mut out = Vec::new();
    for (uid, score) in entries {
        out.extend_from_slice(&uid.to_le_bytes());
        out.extend_from_slice(&score.to_le_bytes());
    }
    out
}

fn idf(weight: f32, total_docs: u64, cf: u64) -> f32 {
    weight * ((total_docs as f32 - cf as f32 + 0.5) / (cf as f32 + 0.5) + 1.0).ln()
}

/// Run the whole BM25 pipeline for one in-memory file and fold the float
/// scores the way the engine does.
fn score_file(
    file: &Vec<u8>,
    file_id: u64,
    query_tokens: &Vec<u32>,
    idfs: &[f32],
    acc: &mut Vec<Scored>,
) {
    let (_trailer, _counts, tables) = load_bm25_meta(file).unwrap();
    let plans = plan_chunk_reads(&tables, query_tokens).unwrap();
    let mut postings = Vec::new();
    for plan in &plans {
        let chunk = read_plan_chunk(file, plan).unwrap();
        let offsets: Vec<u64> = plan.slots.iter().map(|s| s.within_offset).collect();
        let runs = search_compressed(chunk, &offsets).unwrap();
        postings.extend(extract_postings(plan, &runs));
    }
    for group in group_postings(file_id, &postings) {
        let score: f32 = group.contributions.iter().map(|(qi, ps)| idfs[*qi] * *ps as f32).sum();
        acc.push(Scored { file_id: group.file_id, uid: group.uid, score_bits: score.to_bits() });
    }
}

fn single_file() -> Vec<u8> {
    // one real chunk: token 0 owns bytes [0,16), token 16 owns [16,48)
    let chunk = pairs(&[(10, 2), (10, 3), (11, 1)]);
    let mut token_counts = vec![0u64; 32];
    token_counts[0] = 1;
    token_counts[16] = 2;
    build_bm25_file(&[chunk], &[0], &token_counts, 2)
}

#[test]
fn test_read_le_u64s_exact() {
    let mut bytes = Vec::new();
    bytes.extend_from_slice(&1u64.to_le_bytes());
    bytes.extend_from_slice(&0xdeadbeefu64.to_le_bytes());
    let words = read_le_u64s(&bytes).unwrap();
    assert_eq!(words, vec![1, 0xdeadbeef]);
    assert!(matches!(read_le_u64s(&bytes[..9]), Err(LavaError::Parse(_))));
}

#[test]
fn test_decompress_u64_vec_round_trip() {
    let v: Vec<u64> = vec![3, 1, 4, 1, 5, 9, 2, 6];
    let bytes = zstd_bincode(&v);
    assert_eq!(decompress_u64_vec(&bytes).unwrap(), v);
    assert!(matches!(decompress_u64_vec(b"not zstd"), Err(LavaError::Parse(_))));
}

#[test]
fn test_locate_token_boundaries() {
    let words: Vec<u64> = vec![0, 100, 200, 300, 0, 5, 5, u64::MAX];
    let tables = PlistTables::new(words).unwrap();
    assert_eq!(tables.chunk_count(), 4);
    assert_eq!(tables.locate_token(0), (0, 0));
    assert_eq!(tables.locate_token(4), (0, 4));
    // equal boundaries: the later chunk wins
    assert_eq!(tables.locate_token(5), (2, 0));
    assert_eq!(tables.locate_token(9), (2, 4));
}

#[test]
fn test_plist_tables_odd_length_is_data_corruption() {
    let words: Vec<u64> = vec![0, 10, 20];
    match PlistTables::new(words) {
        Err(LavaError::Parse(m)) => assert_eq!(m, "data corruption"),
        other => panic!("expected parse error, got {:?}", other.map(|_| ())),
    }
}

#[test]
fn test_trailer_odd_offsets_table_is_data_corruption() {
    // a file whose offsets table holds an odd number of words
    let mut file: Vec<u8> = Vec::new();
    let term_dict_offset = 0u64;
    file.extend_from_slice(&zstd_bincode(&vec![0u64; 4]));
    let plist_offsets_offset = file.len() as u64;
    file.extend_from_slice(&zstd_bincode(&vec![0u64, 10, 20]));
    file.extend_from_slice(&term_dict_offset.to_le_bytes());
    file.extend_from_slice(&plist_offsets_offset.to_le_bytes());
    file.extend_from_slice(&1u64.to_le_bytes());
    match load_bm25_meta(&file) {
        Err(LavaError::Parse(m)) => assert_eq!(m, "data corruption"),
        other => panic!("expected parse error, got {:?}", other.map(|_| ())),
    }
}

#[test]
fn test_search_compressed_runs() {
    let chunk = pairs(&[(10, 2), (10, 3), (11, 1)]);
    let compressed = zstd::stream::encode_all(&chunk[..], 0).unwrap();
    let runs = search_compressed(&compressed, &vec![0, 16]).unwrap();
    assert_eq!(runs, vec![vec![10, 2], vec![10, 3, 11, 1]]);
}

#[test]
fn test_bm25_single_file_ranking() {
    // single file, two weighted query tokens, k = 10
    let file = single_file();
    let query_tokens: Vec<u32> = vec![0, 16];
    let weights: Vec<f32> = vec![0.1, 0.2];
    let k: usize = 10;

    let (trailer, counts, _tables) = load_bm25_meta(&file).unwrap();
    let cf = token_counts_for_query(&counts, &query_tokens).unwrap();
    let total_docs = trailer.num_documents;
    let idfs: Vec<f32> =
        (0..query_tokens.len()).map(|i| idf(weights[i], total_docs, cf[i])).collect();

    let mut entries: Vec<Scored> = Vec::new();
    score_file(&file, 0, &query_tokens, &idfs, &mut entries);
    let res = top_k(&entries, k);
    // uid 10 accumulates both tokens, uid 11 only the second
    assert_eq!(res, vec![(0, 10), (0, 11)]);
}

#[test]
fn test_bm25_two_files_fused() {
    // two files; counts and document totals fuse before scoring
    let file1 = single_file();
    let chunk2 = pairs(&[(20, 5)]);
    let mut token_counts2 = vec![0u64; 32];
    token_counts2[0] = 3;
    let file2 = build_bm25_file(&[chunk2], &[0], &token_counts2, 3);

    let query_tokens: Vec<u32> = vec![0, 16];
    let weights: Vec<f32> = vec![0.1, 0.2];

    let (t1, c1, _) = load_bm25_meta(&file1).unwrap();
    let (t2, c2, _) = load_bm25_meta(&file2).unwrap();
    let cf1 = token_counts_for_query(&c1, &query_tokens).unwrap();
    let cf2 = token_counts_for_query(&c2, &query_tokens).unwrap();
    let cf = add_u64_totals(&cf1, &cf2).unwrap();
    let total_docs = t1.num_documents + t2.num_documents;
    let idfs: Vec<f32> =
        (0..query_tokens.len()).map(|i| idf(weights[i], total_docs, cf[i])).collect();

    let mut entries: Vec<Scored> = Vec::new();
    score_file(&file1, 0, &query_tokens, &idfs, &mut entries);
    score_file(&file2, 1, &query_tokens, &idfs, &mut entries);
    let res = top_k(&entries, 10);
    assert_eq!(res.len(), 3);
    // uid 20 scores idf0 * 5, the highest contribution of token 0 alone;
    // uid 10 additionally collects token 16
    assert!(res.contains(&(0, 10)));
    assert!(res.contains(&(0, 11)));
    assert!(res.contains(&(1, 20)));
}

#[test]
fn test_top_k_counts_nonzero_only() {
    // exactly min(k, non-zero pairs) results
    let entries = vec![
        Scored { file_id: 0, uid: 1, score_bits: 1.5f32.to_bits() },
        Scored { file_id: 0, uid: 2, score_bits: 0.0f32.to_bits() },
        Scored { file_id: 0, uid: 3, score_bits: 2.5f32.to_bits() },
        Scored { file_id: 1, uid: 4, score_bits: (-0.0f32).to_bits() },
        Scored { file_id: 1, uid: 5, score_bits: 0.25f32.to_bits() },
    ];
    assert_eq!(top_k(&entries, 10), vec![(0, 3), (0, 1), (1, 5)]);
    assert_eq!(top_k(&entries, 2), vec![(0, 3), (0, 1)]);
    assert_eq!(top_k(&entries, 0), Vec::<(u64, u64)>::new());
}

#[test]
fn test_top_k_order_independent() {
    // byte-identical output whatever order the accumulator iterated in
    let a = Scored { file_id: 0, uid: 7, score_bits: 1.0f32.to_bits() };
    let b = Scored { file_id: 0, uid: 3, score_bits: 1.0f32.to_bits() };
    let c = Scored { file_id: 1, uid: 1, score_bits: 3.0f32.to_bits() };
    let one = top_k(&vec![a, b, c], 10);
    let two = top_k(&vec![c, b, a], 10);
    let three = top_k(&vec![b, c, a], 10);
    assert_eq!(one, two);
    assert_eq!(two, three);
    // descending score, ties by ascending (file_id, uid)
    assert_eq!(one, vec![(1, 1), (0, 3), (0, 7)]);
}

#[test]
fn test_top_k_orders_negative_scores() {
    let entries = vec![
        Scored { file_id: 0, uid: 1, score_bits: (-1.0f32).to_bits() },
        Scored { file_id: 0, uid: 2, score_bits: 0.5f32.to_bits() },
        Scored { file_id: 0, uid: 3, score_bits: (-2.0f32).to_bits() },
    ];
    assert_eq!(top_k(&entries, 10), vec![(0, 2), (0, 1), (0, 3)]);
}

#[test]
fn test_search_compressed_rejects_ragged_runs() {
    // a run that is not a whole number of 16-byte pairs
    let chunk = pairs(&[(10, 2)]);
    let compressed = zstd::stream::encode_all(&chunk[..], 0).unwrap();
    match search_compressed(&compressed, &vec![0, 8]) {
        Err(LavaError::Parse(m)) => assert_eq!(m, "data corruption"),
        other => panic!("expected parse error, got {:?}", other),
    }
    // an offset outside the decompressed chunk
    match search_compressed(&compressed, &vec![0, 999]) {
        Err(LavaError::Parse(m)) => assert_eq!(m, "data corruption"),
        other => panic!("expected parse error, got {:?}", other),
    }
}

#[test]
fn test_plan_rejects_token_below_first_boundary() {
    // boundaries start at 4: token 1 belongs to no chunk
    let words: Vec<u64> = vec![0, 100, 4, u64::MAX];
    let tables = PlistTables::new(words).unwrap();
    match plan_chunk_reads(&tables, &vec![1]) {
        Err(LavaError::Parse(m)) => assert_eq!(m, "data corruption"),
        other => panic!("expected parse error, got {:?}", other.map(|_| ())),
    }
}

#[test]
fn test_read_plan_chunk_guards_ranges() {
    let file = single_file();
    let query_tokens: Vec<u32> = vec![0];
    let (_, _, tables) = load_bm25_meta(&file).unwrap();
    let plans = plan_chunk_reads(&tables, &query_tokens).unwrap();
    assert_eq!(plans.len(), 1);
    assert!(read_plan_chunk(&file, &plans[0]).is_ok());
    let mut bad = lava_search::bm25::ChunkPlan {
        chunk_id: plans[0].chunk_id,
        byte_start: 10,
        byte_end: 10,
        slots: Vec::new(),
    };
    assert!(matches!(read_plan_chunk(&file, &bad), Err(LavaError::InvalidInput)));
    bad.byte_end = u64::MAX;
    assert!(matches!(read_plan_chunk(&file, &bad), Err(LavaError::Io)));
}

#[test]
fn test_add_u64_totals_overflow_is_data_corruption() {
    let a = vec![u64::MAX, 1];
    let b = vec![1u64, 1];
    match add_u64_totals(&a, &b) {
        Err(LavaError::Parse(m)) => assert_eq!(m, "data corruption"),
        other => panic!("expected parse error, got {:?}", other.map(|_| ())),
    }
}
