use lossless::coder::ArithDecoder;
use lossless::coder::Interval;
use lossless::fpaq::Encoder as FpaqEncoder;
use lossless::fpaq::Predictor as FpaqPredictor;

#[test]
fn interval_split_follows_the_formula() {
    let mut iv = Interval::new();
    assert_eq!(iv, Interval { low: 0, high: 0xFFFF_FFFF });
    iv.split(false, 2048);
    assert_eq!(iv, Interval { low: 0x8000_0000, high: 0xFFFF_FFFF });
    let mut iv = Interval::new();
    iv.split(true, 2048);
    assert_eq!(iv, Interval { low: 0, high: 0x7FFF_FFFF });
    let mut iv = Interval { low: 0x1000_0000, high: 0x2000_1234 };
    // range = 0x1000_1234: (range >> 12) * 1000 + ((range & 0xFFF) * 1000 >> 12)
    let mid = 0x1000_0000u32 + 0x1_0001 * 1000 + ((0x234 * 1000) >> 12);
    iv.split(true, 1000);
    assert_eq!(iv, Interval { low: 0x1000_0000, high: mid });
    let mut iv = Interval { low: 0x1000_0000, high: 0x2000_1234 };
    iv.split(false, 1000);
    assert_eq!(iv, Interval { low: mid + 1, high: 0x2000_1234 });
}

#[test]
fn interval_with_probability_zero_or_all() {
    let mut iv = Interval { low: 100, high: 0xFF00_0000 };
    iv.split(true, 0);
    assert_eq!(iv, Interval { low: 100, high: 100 });
    let mut iv = Interval { low: 100, high: 0xFF00_0000 };
    iv.split(false, 4095);
    assert!(iv.low <= iv.high);
    assert_eq!(iv.high, 0xFF00_0000);
}

#[test]
fn renormalisation_shifts_out_one_byte() {
    let mut iv = Interval { low: 0x1234_5678, high: 0x12FF_0000 };
    let mut out = Vec::new();
    iv.drain(&mut out);
    assert_eq!(out, vec![0x12]);
    assert_eq!(iv, Interval { low: 0x3456_7800, high: 0xFF00_00FF });
}

#[test]
fn renormalisation_runs_several_rounds_within_one_bit() {
    let mut iv = Interval { low: 0x1234_5600, high: 0x1234_56FF };
    let mut out = vec![9];
    iv.drain(&mut out);
    assert_eq!(out, vec![9, 0x12, 0x34, 0x56]);
    assert_eq!(iv, Interval { low: 0, high: 0xFFFF_FFFF });

    // A bit that is certain to be a zero, coded as a one, leaves a single
    // value: four rounds.
    let mut iv = Interval { low: 0xAABB_CCDD, high: 0xFFFF_FFFF };
    iv.split(true, 0);
    let mut out = Vec::new();
    iv.drain(&mut out);
    assert_eq!(out, vec![0xAA, 0xBB, 0xCC, 0xDD]);
    assert_eq!(iv, Interval { low: 0, high: 0xFFFF_FFFF });
}

#[test]
fn renormalisation_leaves_a_settled_interval_alone() {
    let mut iv = Interval { low: 0x00FF_FFFF, high: 0x0100_0000 };
    let mut out = Vec::new();
    iv.drain(&mut out);
    assert!(out.is_empty());
    assert_eq!(iv, Interval { low: 0x00FF_FFFF, high: 0x0100_0000 });
}

#[test]
fn flush_writes_the_leading_byte_of_the_upper_end() {
    let mut iv = Interval { low: 0x1234_5678, high: 0x9ABC_DEF0 };
    let mut out = Vec::new();
    iv.flush(&mut out);
    assert_eq!(out, vec![0x9A]);
    let mut iv = Interval { low: 0x1234_5678, high: 0x1234_9999 };
    let mut out = Vec::new();
    iv.flush(&mut out);
    assert_eq!(out, vec![0x12, 0x34, 0x99]);
}

#[test]
fn decoder_follows_the_encoder_bit_by_bit() {
    let bits = [1u8, 0, 0, 1, 1, 1, 0, 1, 0, 0, 0, 0, 1, 0, 1, 1, 1, 1, 1, 1, 0];
    let probs = [100u32, 4000, 2048, 1, 4095, 0, 33, 2500, 2047, 2049, 9, 8, 7, 4000, 3000];
    let mut iv = Interval::new();
    let mut out = Vec::new();
    for (k, bit) in bits.iter().enumerate() {
        let p = probs[k % probs.len()];
        iv.split(*bit == 1, p);
        iv.drain(&mut out);
    }
    iv.flush(&mut out);
    let mut dec = ArithDecoder::open(&out).unwrap();
    for (k, bit) in bits.iter().enumerate() {
        let p = probs[k % probs.len()];
        assert_eq!(dec.decode(p, &out), Some(*bit == 1));
    }
}

#[test]
fn decoder_reads_three_bytes_past_the_end_and_no_more() {
    assert!(ArithDecoder::open(&[]).is_none());
    let stream = [0u8];
    let mut dec = ArithDecoder::open(&stream).unwrap();
    // All zeros: every bit decodes as a one, and each bit of probability
    // zero shifts four bytes out.
    assert_eq!(dec.decode(0, &stream), None);
}

#[test]
fn fpaq_predictor_starts_at_one_half_and_learns() {
    let mut p = FpaqPredictor::new();
    assert_eq!(p.p(), 2048);
    for _ in 0..3000 {
        p.update(1);
        assert!(0 <= p.p() && p.p() <= 4095);
    }
    assert!(p.p() > 3000);
}

#[test]
fn fpaq_encoder_codes_bit_by_bit() {
    let mut enc = FpaqEncoder::new();
    enc.encode(0);
    assert_eq!(enc.flush(), vec![0xFF]);
    let mut a = FpaqEncoder::new();
    a.encode(1);
    a.encode_byte(0x5A);
    a.encode(0);
    assert_eq!(a.flush(), lossless::fpaq::fpaq_compress(&[0x5A]));
}
