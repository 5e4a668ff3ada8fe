use lossless::bufio::get_u16;
use lossless::bufio::get_u32;
use lossless::bufio::get_u64;
use lossless::bufio::get_u8;
use lossless::bufio::put_bytes;
use lossless::bufio::put_u64;
use lossless::bufio::BufferState;
use lossless::bufio::BufferedRead;
use lossless::bufio::BufferedWrite;
use lossless::bufio::ByteReader;
use lossless::bufio::ByteWriter;
use lossless::bufio::TooWide;

#[test]
fn buffer_state_tells_the_end() {
    assert!(BufferState::Empty.is_eof());
    assert!(!BufferState::NotEmpty.is_eof());
}

#[test]
fn values_are_little_endian() {
    let bytes = [1u8, 2, 3, 4, 5, 6, 7, 8, 9];
    assert_eq!(get_u8(&bytes, 8), 9);
    assert_eq!(get_u16(&bytes, 0), u16::from_le_bytes([1, 2]));
    assert_eq!(get_u32(&bytes, 1), u32::from_le_bytes([2, 3, 4, 5]));
    assert_eq!(get_u64(&bytes, 1), u64::from_le_bytes([2, 3, 4, 5, 6, 7, 8, 9]));
    let mut out = vec![7];
    put_u64(&mut out, 0x0102_0304_0506_0708);
    assert_eq!(out, vec![7, 8, 7, 6, 5, 4, 3, 2, 1]);
}

#[test]
fn values_past_the_end_read_as_zero() {
    let bytes = [0xAAu8, 0xBB];
    assert_eq!(get_u8(&bytes, 2), 0);
    assert_eq!(get_u16(&bytes, 1), 0x00BB);
    assert_eq!(get_u32(&bytes, 0), 0x0000_BBAA);
    assert_eq!(get_u64(&bytes, 5), 0);
}

#[test]
fn reader_takes_values_in_turn() {
    let mut r = ByteReader::new(vec![1, 2, 3, 4, 5, 6, 7, 8, 9, 10, 11, 12, 13, 14, 15], 4);
    assert_eq!(r.capacity(), 4);
    assert_eq!(r.read_byte(), 1);
    assert_eq!(r.read_u16(), 0x0302);
    assert_eq!(r.read_u32(), 0x0706_0504);
    assert_eq!(r.read_(2), vec![8, 9]);
    assert_eq!(r.read_u64_checked(), None);
    assert_eq!(r.read_u32_checked(), Some(0x0D0C_0B0A));
    assert_eq!(r.read_u16_checked(), Some(0x0F0E));
    assert_eq!(r.read_byte_checked(), None);
    assert_eq!(r.read_checked(1), None);
    assert_eq!(r.read_checked(0), Some(vec![]));
}

#[test]
fn reader_pads_plain_reads_with_zeros() {
    let mut r = ByteReader::new(vec![0xAA, 0xBB, 0xCC], 16);
    assert_eq!(r.read_u64(), 0x00CC_BBAA);
    assert_eq!(r.read_byte(), 0);
    assert_eq!(r.read_u16(), 0);
    assert_eq!(r.read_(3), vec![0, 0, 0]);
    assert_eq!(r.read_byte_checked(), None);
}

#[test]
fn reader_checked_reads_take_nothing_when_they_fail() {
    let mut r = ByteReader::new(vec![1, 2, 3], 16);
    assert_eq!(r.read_u32_checked(), None);
    assert_eq!(r.read_u16_checked(), Some(0x0201));
    assert_eq!(r.read_u16_checked(), None);
    assert_eq!(r.read_byte_checked(), Some(3));
}

#[test]
fn reader_hands_out_buffers() {
    let mut r = ByteReader::new((0..10).collect(), 4);
    assert!(r.buffer().is_empty());
    assert_eq!(r.fill_buffer(), BufferState::NotEmpty);
    assert_eq!(r.buffer(), &[0, 1, 2, 3]);
    assert_eq!(r.read_byte(), 0);
    assert_eq!(r.buffer(), &[1, 2, 3]);
    assert_eq!(r.fill_buffer(), BufferState::NotEmpty);
    assert_eq!(r.buffer(), &[4, 5, 6, 7]);
    assert_eq!(r.fill_buffer(), BufferState::NotEmpty);
    assert_eq!(r.buffer(), &[8, 9]);
    assert_eq!(r.fill_buffer(), BufferState::Empty);
    assert!(r.buffer().is_empty());
    assert!(r.fill_buffer().is_eof());
}

#[test]
fn reader_without_capacity_never_fills() {
    let mut r = ByteReader::new(vec![1, 2, 3], 0);
    assert_eq!(r.fill_buffer(), BufferState::Empty);
    assert_eq!(r.read_byte(), 1);
}

#[test]
fn writer_collects_values() {
    let mut w = ByteWriter::new();
    w.write_byte(1);
    w.write_u16(0x0302);
    w.write_u32(0x0706_0504);
    w.write_u64(0x0F0E_0D0C_0B0A_0908);
    w.write_(&[16, 17]);
    w.flush_buffer();
    assert_eq!(w.into_bytes(), (1..=17).collect::<Vec<u8>>());
}

#[test]
fn writer_checked_writes_refuse_what_does_not_fit() {
    let mut w = ByteWriter::new();
    assert_eq!(w.write_byte_checked(255), Ok(()));
    assert_eq!(w.write_byte_checked(256), Err(TooWide));
    assert_eq!(w.write_u16_checked(0xFFFF), Ok(()));
    assert_eq!(w.write_u16_checked(0x1_0000), Err(TooWide));
    assert_eq!(w.write_u32_checked(0xFFFF_FFFF), Ok(()));
    assert_eq!(w.write_u32_checked(0x1_0000_0000), Err(TooWide));
    assert_eq!(w.write_u64_checked(u64::MAX), Ok(()));
    let mut expected = vec![255u8, 255, 255, 255, 255, 255, 255];
    expected.extend_from_slice(&[255; 8]);
    assert_eq!(w.into_bytes(), expected);
}

#[test]
fn writer_forced_writes_keep_the_low_bytes() {
    let mut w = ByteWriter::new();
    w.write_byte_forced(500);
    w.write_u16_forced(0x0123_4567);
    w.write_u32_forced(0x0123_4567_89AB_CDEF);
    assert_eq!(w.into_bytes(), vec![244, 0x67, 0x45, 0xEF, 0xCD, 0xAB, 0x89]);
}

#[test]
fn bytes_are_appended_in_order() {
    let mut out = vec![1, 2];
    put_bytes(&mut out, &[3, 4, 5]);
    put_bytes(&mut out, &[]);
    assert_eq!(out, vec![1, 2, 3, 4, 5]);
}
