use lava_search::error::LavaError;
use lava_search::tokenizer::{
    build_skip_tokens, encode_chars, filter_skip, prepare_substring_query, skip_chars,
    tokenizer_from_bytes, validate_identical_tokenizers, vocab_size, vocab_strings,
};

/// A small word-level tokenizer, split on whitespace, with punctuation and
/// an unknown token in the vocabulary.
fn tokenizer_json() -> Vec<u8> {
    let json = r#"{"version":"1.0","truncation":null,"padding":null,"added_tokens":[],"normalizer":null,"pre_tokenizer":{"type":"WhitespaceSplit"},"post_processor":null,"decoder":null,"model":{"type":"WordLevel","vocab":{"[UNK]":0,"samsung":1,"galaxy":2,"note":3,"is":4,"a":5,"phone":6,",":7,".":8},"unk_token":"[UNK]"}}"#;
    json.as_bytes().to_vec()
}

#[test]
fn test_tokenizer_from_bytes_and_vocab() {
    let t = tokenizer_from_bytes(&tokenizer_json()).unwrap();
    assert_eq!(vocab_size(&t), 9);
    let words = vocab_strings(&t).unwrap();
    assert_eq!(words.len(), 9);
    assert_eq!(words[1], "samsung");
    assert_eq!(words[3], "note");
}

#[test]
fn test_tokenizer_from_bytes_rejects_garbage() {
    assert!(matches!(tokenizer_from_bytes(&b"not json".to_vec()), Err(LavaError::Parse(_))));
}

#[test]
fn test_encode_lowercases_through_prepare() {
    let t = tokenizer_from_bytes(&tokenizer_json()).unwrap();
    let skip = build_skip_tokens(&t).unwrap();
    let query: Vec<char> = "Samsung Galaxy Note".chars().collect();
    let ids = prepare_substring_query(&t, &query, &skip).unwrap();
    assert_eq!(ids, vec![1, 2, 3]);
}

#[test]
fn test_skip_token_padding_does_not_change_query() {
    let t = tokenizer_from_bytes(&tokenizer_json()).unwrap();
    let skip = build_skip_tokens(&t).unwrap();
    let plain: Vec<char> = "samsung galaxy note".chars().collect();
    let padded: Vec<char> = " samsung galaxy note .".chars().collect();
    let a = prepare_substring_query(&t, &plain, &skip).unwrap();
    let b = prepare_substring_query(&t, &padded, &skip).unwrap();
    assert_eq!(a, b);
}

#[test]
fn test_filter_skip_removes_and_is_idempotent() {
    let ids = vec![1u32, 7, 2, 0, 3, 8];
    let skip = vec![0u32, 7, 8];
    let once = filter_skip(&ids, &skip);
    assert_eq!(once, vec![1, 2, 3]);
    let twice = filter_skip(&once, &skip);
    assert_eq!(twice, once);
}

#[test]
fn test_skip_chars_cover_punctuation() {
    let chars = skip_chars();
    assert!(chars.contains(&' '));
    assert!(chars.contains(&','));
    assert!(chars.contains(&'.'));
    assert!(chars.contains(&'\\'));
}

#[test]
fn test_skip_tokens_hold_encoded_punctuation() {
    let t = tokenizer_from_bytes(&tokenizer_json()).unwrap();
    let skip = build_skip_tokens(&t).unwrap();
    // "," and "." are vocabulary words; the unknown id covers the rest
    let comma = encode_chars(&t, &vec![',']).unwrap();
    assert!(comma.iter().all(|id| skip.contains(id)));
    assert!(skip.contains(&0)); // the unknown token
}

#[test]
fn test_identical_tokenizers_accepted() {
    let a = tokenizer_json();
    let all = vec![a.clone(), a.clone(), a];
    let shared = validate_identical_tokenizers(&all).unwrap();
    assert_eq!(shared, tokenizer_json());
}

#[test]
fn test_mismatched_tokenizers_are_inconsistent() {
    let a = tokenizer_json();
    let mut b = tokenizer_json();
    b.push(b' ');
    match validate_identical_tokenizers(&vec![a, b]) {
        Err(LavaError::Inconsistent) => {},
        other => panic!("expected inconsistency, got {:?}", other),
    }
}

#[test]
fn test_no_files_is_invalid_input() {
    assert!(matches!(
        validate_identical_tokenizers(&Vec::new()),
        Err(LavaError::InvalidInput)
    ));
}
