use bpe_core::BpeCore;
use bpe_core::BpeError;
use bpe_core::Vocab;
use bpe_core::merge::merge;
use bpe_core::pair_encode;
use bpe_core::pair_split;

const PAT: &str = r#"'s|'t|'re|'ve|'m|'ll|'d| ?[\p{L}]+| ?[\p{N}]+| ?[^\s\p{L}\p{N}]+|\s+"#;

fn singleton_vocab() -> Vocab {
    let mut tokens: Vec<Vec<u8>> = Vec::new();
    for b in 0..256u16 {
        tokens.push(vec![b as u8]);
    }
    Vocab { tokens }
}

#[test]
fn test_pair_split() {
    let data = b"Hello world".to_vec();
    let vocab_size = 1000;
    let pat_str = r#"'s|'t|'re|'ve|'m|'ll|'d| ?[\p{L}]+| ?[\p{N}]+| ?[^\s\p{L}\p{N}]+|\s+"#;
    let mut bpe = BpeCore::new(vocab_size, pat_str.to_string()).unwrap();
    bpe.train(data.clone());
    let encode = pair_encode(&data, &bpe.ranks);
    for e in encode.iter() {
        println!("Encoded: {}", e);
        let d = bpe.ranks.tokens[*e as usize].clone();
        println!("Decoded: {:?}", d);
    }
    let decoder: Vec<Vec<u8>> = encode
        .iter()
        .map(|&i| bpe.ranks.tokens[i as usize].clone())
        .collect();
    assert_eq!(
        decoder,
        vec![
            vec![b'H', b'e', b'l', b'l', b'o'],
            vec![b' ', b'w', b'o', b'r', b'l', b'd']
        ]
    );
}

#[test]
fn test_single_merge_on_aaaa() {
    let mut bpe = BpeCore::new(257, PAT.to_string()).unwrap();
    bpe.train(b"aaaa".to_vec());
    assert_eq!(bpe.ranks.tokens.len(), 257);
    assert_eq!(bpe.ranks.tokens[256], b"aa".to_vec());
    let ids = bpe.encode(b"aaaa");
    assert_eq!(ids, vec![256, 256]);
    let back = bpe.decode(&ids).unwrap();
    assert_eq!(back, b"aaaa".to_vec());
}

#[test]
fn test_repeated_words_compress_well() {
    let data = b"hello world hello world".to_vec();
    let mut bpe = BpeCore::new(300, PAT.to_string()).unwrap();
    bpe.train(data.clone());
    assert!(bpe.ranks.tokens.len() <= 300);
    assert!(bpe.ranks.tokens.len() >= 256);
    let ids = bpe.encode(&data);
    assert!(ids.len() < data.len());
    let back = bpe.decode(&ids).unwrap();
    assert_eq!(back, data);
}

#[test]
fn test_vocab_grows_to_target() {
    let data = b"hello world hello world".to_vec();
    let mut bpe = BpeCore::new(258, PAT.to_string()).unwrap();
    bpe.train(data);
    assert_eq!(bpe.ranks.len(), 258);
}

#[test]
fn test_base_vocab_encodes_byte_per_byte() {
    let mut bpe = BpeCore::new(256, PAT.to_string()).unwrap();
    bpe.train(b"abc".to_vec());
    assert_eq!(bpe.ranks.tokens.len(), 256);
    let ids = bpe.encode(b"xyz");
    assert_eq!(ids, vec![b'x' as u32, b'y' as u32, b'z' as u32]);
}

#[test]
fn test_split_concatenates_back() {
    let data = b"Hello world".to_vec();
    let mut bpe = BpeCore::new(1000, PAT.to_string()).unwrap();
    bpe.train(data.clone());
    let pieces = bpe.split(&data);
    let mut joined: Vec<u8> = Vec::new();
    for p in pieces.iter() {
        joined.extend_from_slice(p);
    }
    assert_eq!(joined, data);
}

#[test]
fn test_encode_empty_input() {
    let bpe_vocab = singleton_vocab();
    let ids = pair_encode(b"", &bpe_vocab);
    assert!(ids.is_empty());
    let pieces = pair_split(b"", &bpe_vocab);
    assert!(pieces.is_empty());
}

#[test]
fn test_encode_is_deterministic() {
    let data = b"hello world hello world".to_vec();
    let mut bpe = BpeCore::new(300, PAT.to_string()).unwrap();
    bpe.train(data.clone());
    let first = bpe.encode(&data);
    let second = bpe.encode(&data);
    assert_eq!(first, second);
}

#[test]
fn test_merge_engine_spans() {
    let mut voc = singleton_vocab();
    voc.tokens.push(b"ab".to_vec());
    let parts = merge(b"abab", &voc);
    let offsets: Vec<usize> = parts.iter().map(|p| p.0).collect();
    assert_eq!(offsets, vec![0, 2, 4]);
    let ids = pair_encode(b"abab", &voc);
    assert_eq!(ids, vec![256, 256]);
    let pieces = pair_split(b"abab", &voc);
    assert_eq!(pieces, vec![&b"ab"[..], &b"ab"[..]]);
}

#[test]
fn test_rank_lookup() {
    let mut voc = singleton_vocab();
    voc.tokens.push(b"ab".to_vec());
    assert_eq!(voc.rank_of(b"ab"), 256);
    assert_eq!(voc.rank_of(b"a"), b'a' as u32);
    assert_eq!(voc.rank_of(b"zz"), u32::MAX);
}

#[test]
fn test_new_rejects_small_vocab() {
    let r = BpeCore::new(100, PAT.to_string());
    assert!(matches!(r, Err(BpeError::InvalidVocabSize)));
}

#[test]
fn test_new_rejects_bad_pattern() {
    let r = BpeCore::new(300, "(unclosed".to_string());
    assert!(matches!(r, Err(BpeError::InvalidPattern)));
}

#[test]
fn test_decode_rejects_unknown_id() {
    let mut bpe = BpeCore::new(256, PAT.to_string()).unwrap();
    bpe.train(b"abc".to_vec());
    let r = bpe.decode(&vec![0, 999_999]);
    assert!(matches!(r, Err(BpeError::InvalidToken)));
}

#[test]
fn test_train_survives_invalid_utf8() {
    let mut bpe = BpeCore::new(1000, PAT.to_string()).unwrap();
    bpe.train(vec![0xFF, b'a', b'a', 0xFF]);
    let ids = bpe.encode(b"aa");
    assert_eq!(ids.len(), 1);
    assert_eq!(bpe.decode(&ids).unwrap(), b"aa".to_vec());
}

#[test]
fn test_round_trip_all_byte_values() {
    let bpe_vocab = singleton_vocab();
    let mut data: Vec<u8> = Vec::new();
    for b in 0..256u16 {
        data.push(b as u8);
    }
    let ids = pair_encode(&data, &bpe_vocab);
    assert_eq!(ids.len(), 256);
    let mut joined: Vec<u8> = Vec::new();
    for id in ids.iter() {
        joined.extend_from_slice(&bpe_vocab.tokens[*id as usize]);
    }
    assert_eq!(joined, data);
}
