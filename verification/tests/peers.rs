use lossless::bufio::ByteReader;
use lossless::bufio::ByteWriter;
use lossless::bwt::bwt_inverse_transform;
use lossless::bwt::bwt_transform;
use lossless::bwt::rotation_le;
use lossless::bwt::sort_rotations;
use lossless::error::DecodeError;
use lossless::huffman::decoder::decompress;
use lossless::huffman::encoder::code_table;
use lossless::huffman::encoder::compress;
use lossless::huffman::encoder::grow_tree;
use lossless::huffman::encoder::model;
use lossless::huffman::tree::build_tree;
use lossless::huffman::tree::gen_codes;
use lossless::huffman::tree::pop_min;
use lossless::huffman::tree::Node;
use lossless::huffman::tree::NodeType;
use lossless::lz::flzp::flzp_compress;
use lossless::lz::flzp::flzp_decompress;
use lossless::lz::lz77::Lz77;
use lossless::lz::lz77::Match;
use lossless::lz::lz77::Window;
use lossless::lz::lzw::lzw_compress;
use lossless::lz::lzw::lzw_decompress;

fn noise(len: usize, mut seed: u64) -> Vec<u8> {
    let mut out = Vec::with_capacity(len);
    for _ in 0..len {
        seed ^= seed << 13;
        seed ^= seed >> 7;
        seed ^= seed << 17;
        out.push((seed >> 32) as u8);
    }
    out
}

fn sentence(times: usize) -> Vec<u8> {
    let mut data = Vec::new();
    for _ in 0..times {
        data.extend_from_slice(b"the quick brown fox jumps over the lazy dog");
    }
    data
}

fn samples() -> Vec<Vec<u8>> {
    vec![
        vec![],
        vec![0],
        vec![255],
        (0..=255u8).collect(),
        vec![0x41; 4096],
        sentence(100),
        noise(5000, 1),
        b"banana".to_vec(),
        b"abababababababababababababababab".to_vec(),
    ]
}

fn lz77_compress(data: &[u8], capacity: usize) -> Vec<u8> {
    let mut lz = Lz77::new(ByteReader::new(data.to_vec(), capacity), ByteWriter::new());
    lz.compress();
    lz.into_output()
}

fn lz77_decompress(data: &[u8]) -> Result<Vec<u8>, DecodeError> {
    let mut lz = Lz77::new(ByteReader::new(data.to_vec(), 1 << 20), ByteWriter::new());
    lz.decompress()?;
    Ok(lz.into_output())
}

#[test]
fn lz77_round_trips() {
    for data in samples() {
        let packed = lz77_compress(&data, 1 << 20);
        assert_eq!(lz77_decompress(&packed), Ok(data));
    }
}

#[test]
fn lz77_round_trips_with_small_buffers() {
    for capacity in [1, 2, 7, 100] {
        for data in samples() {
            let packed = lz77_compress(&data, capacity);
            assert_eq!(lz77_decompress(&packed), Ok(data));
        }
    }
}

#[test]
fn lz77_literals_and_pointers() {
    assert_eq!(lz77_compress(&[], 16), Vec::<u8>::new());
    assert_eq!(lz77_compress(&[1, 2, 3], 16), vec![0, 1, 0, 2, 0, 3]);
    // The window starts out as zeros: four zeros repeat it from its
    // highest offset.
    assert_eq!(lz77_compress(&[0, 0, 0, 0], 16), vec![0xFF, 0xE4]);
    // A single zero is no repeat.
    assert_eq!(lz77_compress(&[0], 16), vec![0, 0]);
    // With no capacity nothing is read.
    assert_eq!(lz77_compress(&[1, 2, 3], 0), Vec::<u8>::new());
}

#[test]
fn lz77_repeat_is_at_most_31_bytes_and_stays_in_its_buffer() {
    let packed = lz77_compress(&[0; 40], 64);
    assert_eq!(packed, vec![0xFF, 0xFF, 0xFF, 0xE9]);
    let packed = lz77_compress(&[0; 40], 10);
    assert_eq!(packed, vec![0xFF, 0xEA, 0xFF, 0xEA, 0xFF, 0xEA, 0xFF, 0xEA]);
}

#[test]
fn lz77_shrinks_repetitive_data() {
    let data = sentence(50);
    assert!(lz77_compress(&data, 1 << 20).len() < data.len() / 2);
}

#[test]
fn lz77_token_cut_short_is_rejected() {
    assert_eq!(lz77_decompress(&[0, 1, 0]), Err(DecodeError::UnexpectedEof));
    assert_eq!(lz77_decompress(&[7]), Err(DecodeError::UnexpectedEof));
}

#[test]
fn lz77_decodes_any_pointer() {
    // Offset 8, length 3, into a window of zeros with one literal in it.
    assert_eq!(lz77_decompress(&[0, 9, 1, 3]), Ok(vec![9, 0, 0, 0]));
    // Offset 0 would read as a literal; offset 2047, length 2 wraps round.
    assert_eq!(lz77_decompress(&[0, 9, 0xFF, 0xE2]), Ok(vec![9, 0, 9]));
}

#[test]
fn lz77_window_and_match() {
    let m = Match::new(3, 4);
    assert_eq!((m.offset, m.len), (3, 4));
    let mut w = Window::new(4);
    assert_eq!(w.len(), 4);
    w.add_bytes(&[1, 2, 3]);
    w.add_byte(4);
    w.add_byte(5);
    assert_eq!(w.get_byte(0), 5);
    assert_eq!(w.get_byte(1), 2);
    assert_eq!(w.get_byte(7), 4);
}

#[test]
fn lzw_round_trips() {
    for data in samples() {
        let packed = lzw_compress(&data);
        assert_eq!(lzw_decompress(&packed), Ok(data));
    }
}

#[test]
fn lzw_codes() {
    assert_eq!(lzw_compress(&[]), Vec::<u8>::new());
    assert_eq!(lzw_compress(b"a"), vec![97, 0]);
    // a, then aa (the code made just before), then a.
    assert_eq!(lzw_compress(b"aaaa"), vec![97, 0, 0, 1, 97, 0]);
    assert_eq!(lzw_compress(b"abab"), vec![97, 0, 98, 0, 0, 1]);
}

#[test]
fn lzw_round_trips_when_the_codes_run_out() {
    let data = noise(300_000, 99);
    let packed = lzw_compress(&data);
    // More codes were written than there are codes.
    assert!(packed.len() / 2 > 70_000);
    assert_eq!(lzw_decompress(&packed), Ok(data));
    let mut data = noise(200_000, 5);
    for b in data.iter_mut() {
        *b &= 3;
    }
    let packed = lzw_compress(&data);
    assert!(packed.len() < data.len());
    assert_eq!(lzw_decompress(&packed), Ok(data));
}

#[test]
fn lzw_bad_streams_are_rejected() {
    assert_eq!(lzw_decompress(&[97]), Err(DecodeError::UnexpectedEof));
    assert_eq!(lzw_decompress(&[97, 0, 98]), Err(DecodeError::UnexpectedEof));
    // A code that has no string yet and cannot be the next one.
    assert_eq!(lzw_decompress(&[0, 1]), Err(DecodeError::InvalidData));
    assert_eq!(lzw_decompress(&[97, 0, 1, 1]), Err(DecodeError::InvalidData));
    // The next code: the last string and its first byte.
    assert_eq!(lzw_decompress(&[97, 0, 0, 1]), Ok(b"aaa".to_vec()));
}

#[test]
fn flzp_round_trips() {
    for data in samples() {
        let packed = flzp_compress(&data);
        assert_eq!(flzp_decompress(&packed), Ok(data));
    }
}

#[test]
fn flzp_round_trips_over_many_blocks() {
    let mut data = sentence(3000);
    data.extend_from_slice(&noise(100_000, 3));
    data.extend_from_slice(&sentence(3000));
    let packed = flzp_compress(&data);
    assert_eq!(flzp_decompress(&packed), Ok(data));
}

#[test]
fn flzp_block_of_one_byte() {
    assert_eq!(flzp_compress(&[]), Vec::<u8>::new());
    let mut expected = vec![0u8; 32];
    expected[0] = 1 << 5;
    // The byte itself, then the lowest unused value to end the block.
    expected.extend_from_slice(&[5, 0]);
    assert_eq!(flzp_compress(&[5]), expected);
}

#[test]
fn flzp_shrinks_repetitive_data() {
    let data = sentence(100);
    assert!(flzp_compress(&data).len() < data.len() / 4);
}

#[test]
fn flzp_streams_cut_short_are_rejected() {
    let packed = flzp_compress(b"hello hello hello hello");
    assert_eq!(flzp_decompress(&packed[..10]), Err(DecodeError::UnexpectedEof));
    assert_eq!(flzp_decompress(&packed[..packed.len() - 1]), Err(DecodeError::UnexpectedEof));
    assert_eq!(flzp_decompress(&packed[..33]), Err(DecodeError::UnexpectedEof));
}

#[test]
fn huffman_round_trips() {
    for data in samples() {
        let packed = compress(&data);
        assert_eq!(decompress(&packed), Ok(data));
    }
}

#[test]
fn huffman_header_holds_padding_and_frequencies() {
    let packed = compress(&[]);
    assert_eq!(packed.len(), 1025);
    assert_eq!(packed[0], 8);
    for i in 0..256 {
        assert_eq!(&packed[1 + 4 * i..5 + 4 * i], &1u32.to_le_bytes());
    }
    let packed = compress(&[7, 7, 7]);
    assert_eq!(&packed[1 + 4 * 7..5 + 4 * 7], &4u32.to_le_bytes());
    assert_eq!(&packed[1 + 4 * 8..5 + 4 * 8], &1u32.to_le_bytes());
    let data = sentence(10);
    let packed = compress(&data);
    assert!(packed[0] <= 7);
    assert!(packed.len() - 1025 < data.len());
}

#[test]
fn huffman_frequent_bytes_get_short_codes() {
    let mut data = vec![b'e'; 5000];
    data.extend_from_slice(&[b'q'; 3]);
    let counts = model(&data);
    assert_eq!(counts[b'e' as usize], 5001);
    assert_eq!(counts[b'q' as usize], 4);
    assert_eq!(counts[0], 1);
    let root = grow_tree(&counts);
    assert_eq!(root.frequency, 5003 + 256);
    let table = code_table(&root);
    assert_eq!(table.len(), 256);
    assert_eq!(table[b'e' as usize].len(), 1);
    assert!(table[b'q' as usize].len() > 5);
    for code in table.iter() {
        assert!(!code.is_empty());
        assert!(code.iter().all(|b| *b <= 1));
    }
}

#[test]
fn huffman_tree_joins_the_rarest_first() {
    let mut heap = vec![
        Node::new(5, NodeType::Leaf(b'a')),
        Node::new(2, NodeType::Leaf(b'b')),
        Node::new(9, NodeType::Leaf(b'c')),
        Node::new(2, NodeType::Leaf(b'd')),
    ];
    let first = pop_min(&mut heap);
    assert_eq!(first, Node::new(2, NodeType::Leaf(b'b')));
    heap.insert(1, first);
    build_tree(&mut heap);
    assert_eq!(heap.len(), 1);
    let bd = Node::new(
        4,
        NodeType::Internal(
            Box::new(Node::new(2, NodeType::Leaf(b'b'))),
            Box::new(Node::new(2, NodeType::Leaf(b'd'))),
        ),
    );
    let bda = Node::new(
        9,
        NodeType::Internal(Box::new(bd), Box::new(Node::new(5, NodeType::Leaf(b'a')))),
    );
    let root = Node::new(
        18,
        NodeType::Internal(Box::new(Node::new(9, NodeType::Leaf(b'c'))), Box::new(bda)),
    );
    assert_eq!(heap[0], root);
    let mut codes = vec![Vec::new(); 256];
    gen_codes(&heap[0], vec![], &mut codes);
    assert_eq!(codes[b'c' as usize], vec![0]);
    assert_eq!(codes[b'a' as usize], vec![1, 1]);
    assert_eq!(codes[b'b' as usize], vec![1, 0, 0]);
    assert_eq!(codes[b'd' as usize], vec![1, 0, 1]);
}

#[test]
fn huffman_bad_streams_are_rejected() {
    assert_eq!(decompress(&[]), Err(DecodeError::UnexpectedEof));
    assert_eq!(decompress(&[0; 1024]), Err(DecodeError::UnexpectedEof));
    let mut packed = compress(b"some text");
    packed[0] = 8;
    assert_eq!(decompress(&packed), Err(DecodeError::InvalidHeader));
    let mut packed = compress(b"some text");
    for b in packed[1..1025].iter_mut() {
        *b = 255;
    }
    assert_eq!(decompress(&packed), Err(DecodeError::InvalidHeader));
    // A header alone stands for nothing, whatever its padding count.
    let mut packed = compress(&[]);
    packed[0] = 200;
    assert_eq!(decompress(&packed), Ok(vec![]));
}

#[test]
fn bwt_round_trips() {
    for data in samples() {
        let packed = bwt_transform(&data, 1 << 20);
        assert_eq!(packed.len(), if data.is_empty() { 8 } else { data.len() + 16 });
        assert_eq!(bwt_inverse_transform(&packed), Ok(data));
    }
}

#[test]
fn bwt_round_trips_with_small_blocks() {
    for capacity in [1, 2, 3, 100] {
        for data in samples() {
            let packed = bwt_transform(&data, capacity);
            assert_eq!(bwt_inverse_transform(&packed), Ok(data));
        }
    }
}

#[test]
fn bwt_of_banana() {
    let packed = bwt_transform(b"banana", 64);
    let mut expected = 64u64.to_le_bytes().to_vec();
    expected.extend_from_slice(&2u64.to_le_bytes());
    expected.extend_from_slice(b"nnbaaa");
    assert_eq!(packed, expected);
    assert_eq!(sort_rotations(b"banana"), vec![5, 3, 1, 0, 4, 2]);
}

#[test]
fn bwt_equal_rotations_keep_their_order() {
    assert_eq!(sort_rotations(b"abab"), vec![0, 2, 1, 3]);
    assert_eq!(sort_rotations(b"aaaa"), vec![0, 1, 2, 3]);
    assert_eq!(sort_rotations(b""), Vec::<u32>::new());
    assert!(rotation_le(0, 2, b"abab"));
    assert!(!rotation_le(2, 0, b"abab"));
    assert!(rotation_le(1, 1, b"abab"));
    assert!(rotation_le(0, 1, b"abab"));
    assert!(!rotation_le(1, 0, b"abab"));
}

#[test]
fn bwt_cuts_blocks_at_the_capacity() {
    let packed = bwt_transform(b"bananabanana!", 6);
    let block = |bytes: &[u8], primary: u64| {
        let mut b = primary.to_le_bytes().to_vec();
        b.extend_from_slice(bytes);
        b
    };
    let mut expected = 6u64.to_le_bytes().to_vec();
    expected.extend_from_slice(&block(b"nnbaaa", 2));
    expected.extend_from_slice(&block(b"nnbaaa", 2));
    expected.extend_from_slice(&block(b"!", 0));
    assert_eq!(packed, expected);
    assert_eq!(bwt_transform(b"abc", 0), 0u64.to_le_bytes().to_vec());
}

#[test]
fn bwt_bad_streams_are_rejected() {
    assert_eq!(bwt_inverse_transform(&[]), Err(DecodeError::UnexpectedEof));
    assert_eq!(bwt_inverse_transform(&[0; 7]), Err(DecodeError::UnexpectedEof));
    let mut packed = bwt_transform(b"banana", 64);
    assert_eq!(bwt_inverse_transform(&packed[..12]), Err(DecodeError::UnexpectedEof));
    packed[8] = 6;
    assert_eq!(bwt_inverse_transform(&packed), Err(DecodeError::InvalidData));
    assert_eq!(bwt_inverse_transform(&8u64.to_le_bytes()), Ok(vec![]));
}
