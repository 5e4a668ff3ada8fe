use lossless::error::DecodeError;
use lossless::lpaq1::codec::lpaq1_compress;
use lossless::lpaq1::codec::lpaq1_decompress;

const BLOCK: usize = 1 << 20;

fn pseudo_random(len: usize, mut seed: u64) -> Vec<u8> {
    let mut out = Vec::with_capacity(len);
    for _ in 0..len {
        seed ^= seed << 13;
        seed ^= seed >> 7;
        seed ^= seed << 17;
        out.push((seed >> 32) as u8);
    }
    out
}

#[test]
fn lpaq1_empty_input_is_header_and_one_byte() {
    let packed = lpaq1_compress(&[], BLOCK);
    assert_eq!(packed.len(), 25);
    assert_eq!(&packed[0..8], &0u64.to_le_bytes());
    assert_eq!(&packed[8..16], &(BLOCK as u64).to_le_bytes());
    assert_eq!(&packed[16..24], &0u64.to_le_bytes());
    assert_eq!(lpaq1_decompress(&packed), Ok(vec![]));
}

#[test]
fn lpaq1_single_zero_byte_round_trips() {
    let packed = lpaq1_compress(&[0], BLOCK);
    assert_eq!(&packed[0..8], &1u64.to_le_bytes());
    assert_eq!(&packed[16..24], &1u64.to_le_bytes());
    assert_eq!(lpaq1_decompress(&packed), Ok(vec![0]));
}

#[test]
fn lpaq1_all_byte_values_round_trip() {
    let data: Vec<u8> = (0..=255u8).collect();
    let packed = lpaq1_compress(&data, BLOCK);
    assert_eq!(lpaq1_decompress(&packed), Ok(data));
}

#[test]
fn lpaq1_repeated_byte_compresses_to_a_few_bytes() {
    let data = vec![0x41u8; 4096];
    let packed = lpaq1_compress(&data, BLOCK);
    assert!(packed.len() - 24 < 64, "payload is {} bytes", packed.len() - 24);
    assert_eq!(lpaq1_decompress(&packed), Ok(data));
}

#[test]
fn lpaq1_repeated_sentence_round_trips() {
    let sentence = b"the quick brown fox jumps over the lazy dog";
    let mut data = Vec::new();
    for _ in 0..100 {
        data.extend_from_slice(sentence);
    }
    let packed = lpaq1_compress(&data, BLOCK);
    assert!(packed.len() < data.len() / 10);
    assert_eq!(lpaq1_decompress(&packed), Ok(data));
}

#[test]
fn lpaq1_random_data_round_trips_without_gain() {
    let data = pseudo_random(1 << 20, 0x9E37_79B9_7F4A_7C15);
    let packed = lpaq1_compress(&data, BLOCK);
    assert!(packed.len() + 64 >= data.len());
    assert_eq!(lpaq1_decompress(&packed), Ok(data));
}

#[test]
fn lpaq1_header_counts_blocks() {
    let data = pseudo_random(2500, 7);
    let packed = lpaq1_compress(&data, 1000);
    assert_eq!(&packed[0..8], &500u64.to_le_bytes());
    assert_eq!(&packed[8..16], &1000u64.to_le_bytes());
    assert_eq!(&packed[16..24], &3u64.to_le_bytes());
    assert_eq!(lpaq1_decompress(&packed), Ok(data));
}

#[test]
fn lpaq1_payload_does_not_depend_on_block_size() {
    let data = pseudo_random(3000, 11);
    let a = lpaq1_compress(&data, 1000);
    let b = lpaq1_compress(&data, 7);
    let c = lpaq1_compress(&data, BLOCK);
    assert_eq!(&a[24..], &b[24..]);
    assert_eq!(&a[24..], &c[24..]);
    assert_eq!(lpaq1_decompress(&b), Ok(data));
}

#[test]
fn lpaq1_exact_multiple_of_block_size() {
    let data = pseudo_random(3000, 13);
    let packed = lpaq1_compress(&data, 1000);
    assert_eq!(&packed[0..8], &1000u64.to_le_bytes());
    assert_eq!(&packed[16..24], &3u64.to_le_bytes());
    assert_eq!(lpaq1_decompress(&packed), Ok(data));
}

#[test]
fn lpaq1_zero_block_size_reads_nothing() {
    let packed = lpaq1_compress(&[1, 2, 3], 0);
    assert_eq!(packed, lpaq1_compress(&[], 0));
    assert_eq!(lpaq1_decompress(&packed), Ok(vec![]));
}

#[test]
fn lpaq1_compression_is_deterministic() {
    let data = pseudo_random(5000, 17);
    assert_eq!(lpaq1_compress(&data, BLOCK), lpaq1_compress(&data, BLOCK));
}

#[test]
fn lpaq1_short_stream_is_rejected() {
    assert_eq!(lpaq1_decompress(&[]), Err(DecodeError::UnexpectedEof));
    assert_eq!(lpaq1_decompress(&[0u8; 23]), Err(DecodeError::UnexpectedEof));
    assert_eq!(lpaq1_decompress(&[0u8; 24]), Err(DecodeError::UnexpectedEof));
}

#[test]
fn lpaq1_truncated_stream_is_rejected() {
    let data = pseudo_random(2000, 19);
    let packed = lpaq1_compress(&data, BLOCK);
    let cut = &packed[..packed.len() - 100];
    assert_eq!(lpaq1_decompress(cut), Err(DecodeError::UnexpectedEof));
}

#[test]
fn lpaq1_header_declaring_too_much_is_rejected() {
    let data = pseudo_random(100, 23);
    let mut packed = lpaq1_compress(&data, BLOCK);
    packed[0..8].copy_from_slice(&1_000_000u64.to_le_bytes());
    assert_eq!(lpaq1_decompress(&packed), Err(DecodeError::UnexpectedEof));
}
