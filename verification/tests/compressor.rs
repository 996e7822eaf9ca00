use bpe_core::compress;
use bpe_core::decompress;

#[test]
fn test_compress_decompress() {
    let data = vec![1, 2, 3, 4, 5, 1, 2, 3, 4, 5];
    let max_freq = 2;
    let (compressed_data, table) = compress(&data, max_freq).unwrap();
    let decompressed_data = decompress(&compressed_data, &table);
    assert_eq!(data, decompressed_data);
}

#[test]
fn test_string_compress_decompress() {
    let data = b"hello world hello world";
    let max_freq = 2;
    let (compressed_data, table) = compress(data, max_freq).unwrap();
    println!("Compressed data: {:?}", compressed_data);
    println!(
        "compress ratio: {}",
        compressed_data.len() as f64 / data.len() as f64
    );
    let decompressed_data = decompress(&compressed_data, &table);
    assert_eq!(data.to_vec(), decompressed_data);
}

#[test]
fn test_compress_assigns_unused_bytes() {
    let data = b"ababababab";
    let (out, table) = compress(data, 2).unwrap();
    assert!(out.len() < data.len());
    for k in table.keys() {
        assert!(!data.contains(k));
    }
    assert_eq!(decompress(&out, &table), data.to_vec());
}

#[test]
fn test_compress_empty_input() {
    let (out, table) = compress(b"", 2).unwrap();
    assert!(out.is_empty());
    assert!(table.is_empty());
    assert!(decompress(&out, &table).is_empty());
}

#[test]
fn test_compress_exhausts_free_slots() {
    let mut data: Vec<u8> = Vec::new();
    for b in 0..256u16 {
        data.push(b as u8);
    }
    data.extend_from_slice(b"abab");
    assert!(compress(&data, 2).is_none());
}

#[test]
fn test_compress_short_input_is_identity() {
    let (out, table) = compress(&[5], 0).unwrap();
    assert_eq!(out, vec![5]);
    assert!(table.is_empty());
}

#[test]
fn test_compress_no_frequent_pairs() {
    let data = b"abcdef";
    let (out, table) = compress(data, 2).unwrap();
    assert_eq!(out, data.to_vec());
    assert!(table.is_empty());
    assert_eq!(decompress(&out, &table), data.to_vec());
}
