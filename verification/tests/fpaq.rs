use lossless::error::DecodeError;
use lossless::fpaq::fpaq_compress;
use lossless::fpaq::fpaq_decompress;

fn pseudo_random_bytes(len: usize, mut seed: u64) -> Vec<u8> {
    let mut out = Vec::with_capacity(len);
    for _ in 0..len {
        seed ^= seed << 13;
        seed ^= seed >> 7;
        seed ^= seed << 17;
        out.push((seed >> 32) as u8);
    }
    out
}

#[test]
fn fpaq_empty_input_is_one_byte() {
    let packed = fpaq_compress(&[]);
    assert_eq!(packed, vec![0xFF]);
    assert_eq!(fpaq_decompress(&packed), Ok(vec![]));
}

#[test]
fn fpaq_single_zero_byte_round_trips() {
    let packed = fpaq_compress(&[0]);
    assert!(!packed.is_empty());
    assert_eq!(fpaq_decompress(&packed), Ok(vec![0]));
}

#[test]
fn fpaq_all_byte_values_round_trip() {
    let data: Vec<u8> = (0..=255u8).collect();
    let packed = fpaq_compress(&data);
    assert_eq!(fpaq_decompress(&packed), Ok(data));
}

#[test]
fn fpaq_repeated_byte_round_trips_and_shrinks() {
    let data = vec![0x41u8; 4096];
    let packed = fpaq_compress(&data);
    assert!(packed.len() < data.len() / 8);
    assert_eq!(fpaq_decompress(&packed), Ok(data));
}

#[test]
fn fpaq_repeated_sentence_round_trips() {
    let sentence = b"the quick brown fox jumps over the lazy dog";
    let mut data = Vec::new();
    for _ in 0..100 {
        data.extend_from_slice(sentence);
    }
    let packed = fpaq_compress(&data);
    assert!(packed.len() < data.len());
    assert_eq!(fpaq_decompress(&packed), Ok(data));
}

#[test]
fn fpaq_random_data_round_trips_without_gain() {
    let data = pseudo_random_bytes(1 << 20, 0x2545_F491_4F6C_DD1D);
    let packed = fpaq_compress(&data);
    assert!(packed.len() + 64 >= data.len());
    assert_eq!(fpaq_decompress(&packed), Ok(data));
}

#[test]
fn fpaq_compression_is_deterministic() {
    let data = pseudo_random_bytes(5000, 3);
    assert_eq!(fpaq_compress(&data), fpaq_compress(&data));
}

#[test]
fn fpaq_empty_stream_is_rejected() {
    assert_eq!(fpaq_decompress(&[]), Err(DecodeError::UnexpectedEof));
}

#[test]
fn fpaq_stream_without_end_is_rejected() {
    // A stream of zeros decodes ones for ever: it never reaches the zero
    // bit that ends a stream.
    assert_eq!(fpaq_decompress(&[0, 0, 0, 0]), Err(DecodeError::UnexpectedEof));
}

#[test]
fn fpaq_truncated_stream_is_rejected() {
    let data = pseudo_random_bytes(2000, 5);
    let packed = fpaq_compress(&data);
    let cut = &packed[..packed.len() / 2];
    assert!(fpaq_decompress(cut) != Ok(data));
}
