use lossless::apm::Apm;
use lossless::logistic::StretchTable;
use lossless::lpaq1::context::ContextModel;
use lossless::lpaq1::context::Histories;
use lossless::lpaq1::context::Order;
use lossless::lpaq1::context::StateRef;
use lossless::lpaq1::hashtable::HashTable;
use lossless::lpaq1::matchmodel::MatchModel;
use lossless::lpaq1::mixer::dot_product;
use lossless::lpaq1::mixer::train;
use lossless::lpaq1::mixer::Mixer;
use lossless::lpaq1::predictor::Predictor as LpaqPredictor;
use lossless::state::next_state;
use lossless::statemap::learn;
use lossless::statemap::StateMap;
use lossless::statemap::StateMapKind;

fn mix(cxt: u32) -> u32 {
    cxt.wrapping_mul(123456791).rotate_right(16).wrapping_mul(234567891)
}

#[test]
fn state_table_first_steps() {
    assert_eq!(next_state(0, 0), 1);
    assert_eq!(next_state(0, 1), 2);
    assert_eq!(next_state(1, 0), 3);
    assert_eq!(next_state(1, 1), 5);
    assert_eq!(next_state(2, 0), 4);
    assert_eq!(next_state(2, 1), 6);
    assert_eq!(next_state(252, 0), 140);
    assert_eq!(next_state(252, 1), 252);
    assert_eq!(next_state(255, 1), 0);
}

#[test]
fn state_table_stays_within_its_states() {
    for s in 0..=252u8 {
        assert!(next_state(s, 0) <= 252);
        assert!(next_state(s, 1) <= 252);
    }
}

#[test]
fn statemap_entry_learns_a_one() {
    // error 2^18 - 2^17, rate 32768 / 5
    assert_eq!(learn(StateMapKind::Fpaq, 0x8000_0000, 1), 0xB332_0001);
    // error (2^22 - 2^21) / 8, rate 16384 / 3
    assert_eq!(learn(StateMapKind::Lpaq1, 0x8000_0000, 1), 0xD554_0001);
}

#[test]
fn statemap_entry_learns_a_zero() {
    assert_eq!(learn(StateMapKind::Fpaq, 0x8000_0000, 0), 0x4CCE_0001);
    assert_eq!(learn(StateMapKind::Lpaq1, 0x8000_0000, 0), 0x2AAC_0001);
}

#[test]
fn statemap_count_stops_at_its_limit() {
    let mut e = 0x8000_0000u32;
    for _ in 0..500 {
        e = learn(StateMapKind::Fpaq, e, 1);
    }
    assert_eq!(e % 512, 127);
    let mut e = 0x8000_0000u32;
    for _ in 0..2000 {
        e = learn(StateMapKind::Lpaq1, e, 0);
    }
    assert_eq!(e % 1024, 127);
}

#[test]
fn statemap_follows_a_constant_source() {
    let mut sm = StateMap::new(StateMapKind::Lpaq1, 4);
    let mut p = 0;
    for _ in 0..1000 {
        p = sm.p(1, 2);
    }
    assert!(p > 4000);
    for _ in 0..1000 {
        p = sm.p(0, 2);
    }
    assert!(p < 96);
}

#[test]
fn statemap_fresh_context_predicts_one_half() {
    let mut sm = StateMap::new(StateMapKind::Fpaq, 4);
    assert_eq!(sm.p(0, 1), 2048);
    assert_eq!(sm.p(1, 3), 2048);
    // Context 1 has learnt the one that followed it.
    assert_eq!(sm.p(1, 1), 0xB332_0001u32 as i32 >> 20 & 0xFFF);
}

#[test]
fn apm_fresh_map_repeats_its_input() {
    let table = StretchTable::new();
    let mut apm = Apm::new(2);
    // stretch(2048) = 1: one 128th of the way from bin 16 to bin 17.
    assert_eq!(apm.p(0, 7, 2048, 0, &table), (32752 * 127 + 40784) / 2048);
    let mut apm = Apm::new(2);
    let out = apm.p(0, 7, 1000, 1, &table);
    assert!((out - 1000).abs() <= 16);
}

#[test]
fn apm_learns_from_the_bits() {
    let table = StretchTable::new();
    let mut apm = Apm::new(1);
    let mut out = 0;
    for _ in 0..2000 {
        out = apm.p(1, 5, 2048, 0, &table);
    }
    assert!(out > 4000);
    for _ in 0..2000 {
        out = apm.p(0, 5, 2048, 0, &table);
    }
    assert!(out < 96);
}

#[test]
fn apm_accepts_every_rate() {
    let table = StretchTable::new();
    for rate in 1..=31 {
        let mut apm = Apm::new(1);
        for i in 0..100 {
            let out = apm.p(i % 2, rate, 4095 - (i * 40), 0, &table);
            assert!(0 <= out && out <= 4095);
        }
    }
}

#[test]
fn mixer_dot_product_and_training() {
    let inputs = vec![100, -200, 300];
    let mut weights = vec![0, 0, 65536, 2 * 65536, -65536, 7];
    assert_eq!(dot_product(&inputs, &weights, 2), 100 - 400 - 300);
    train(&inputs, &mut weights, 2, 1000);
    // (x * 1000 + 0x8000) >> 16
    assert_eq!(weights, vec![0, 0, 65536 + 2, 2 * 65536 - 3, -65536 + 5, 7]);
}

#[test]
fn mixer_with_no_weights_predicts_one_half() {
    let mut m = Mixer::new(7, 80);
    for x in [100, 200, -300, 400, 500, -600, 700] {
        m.add(x);
    }
    m.set(79);
    assert_eq!(m.p(), 2047);
}

#[test]
fn mixer_learns_towards_the_bit() {
    let mut m = Mixer::new(2, 3);
    let mut p = 0;
    let mut last = 0;
    for _ in 0..2000 {
        m.add(1000);
        m.add(-500);
        m.set(1);
        p = m.p();
        assert!(p >= last);
        last = p;
        m.update(1);
    }
    assert!(p > 3000);
    // Another weight set has learnt nothing.
    m.add(1000);
    m.add(-500);
    m.set(2);
    assert_eq!(m.p(), 2047);
}

#[test]
fn match_model_length_saturates_and_resets() {
    let mut mm = MatchModel::new(1024);
    let mut longest = 0;
    for _ in 0..200 {
        for k in (0..8).rev() {
            mm.p((0x41 >> k) & 1);
        }
        assert!(mm.len() <= 62);
        if mm.len() > longest {
            longest = mm.len();
        }
    }
    assert_eq!(longest, 62);
    assert_eq!(mm.len(), 62);
    // The match predicts a zero first (0x41 starts with one); a one
    // contradicts it.
    mm.p(1);
    assert_eq!(mm.len(), 0);
}

#[test]
fn match_model_keeps_its_match_while_bits_agree() {
    let mut mm = MatchModel::new(1024);
    for _ in 0..100 {
        for k in (0..8).rev() {
            mm.p((0x41 >> k) & 1);
        }
    }
    assert_eq!(mm.len(), 62);
    for k in (1..8).rev() {
        mm.p((0x41 >> k) & 1);
        assert_eq!(mm.len(), 62);
    }
}

#[test]
fn match_model_finds_nothing_in_fresh_data() {
    let mut mm = MatchModel::new(1024);
    for byte in 1..=40u8 {
        for k in (0..8).rev() {
            let p = mm.p(((byte >> k) & 1) as i32);
            assert!(0 <= p && p <= 4095);
        }
        assert_eq!(mm.len(), 0);
    }
}

#[test]
fn hash_table_finds_checksum_in_third_slot() {
    let size = 1 << 12;
    let cxt = 12345u32;
    let h = mix(cxt);
    let chk = (h >> 24) as u8;
    assert!(chk != 0);
    let i = (h as usize * 16) & (size - 16);
    let mut table = HashTable::new(size);
    table.set(i, chk.wrapping_add(1));
    table.set(i ^ 16, chk.wrapping_add(2));
    table.set(i ^ 32, chk);
    table.set((i ^ 32) + 1, 200);
    table.set((i ^ 32) + 15, 77);
    assert_eq!(table.hash(cxt), i ^ 32);
    // A hit leaves the slot as it is.
    assert_eq!(table.get(i ^ 32), chk);
    assert_eq!(table.get((i ^ 32) + 1), 200);
    assert_eq!(table.get((i ^ 32) + 15), 77);
    assert_eq!(table.get(i), chk.wrapping_add(1));
    assert_eq!(table.get(i ^ 16), chk.wrapping_add(2));
}

#[test]
fn hash_table_finds_checksum_in_first_and_second_slot() {
    let size = 1 << 12;
    let cxt = 999u32;
    let h = mix(cxt);
    let chk = (h >> 24) as u8;
    assert!(chk != 0);
    let i = (h as usize * 16) & (size - 16);
    let mut table = HashTable::new(size);
    table.set(i ^ 16, chk);
    assert_eq!(table.hash(cxt), i ^ 16);
    table.set(i, chk);
    assert_eq!(table.hash(cxt), i);
}

#[test]
fn hash_table_claims_the_slot_with_the_lowest_history() {
    let size = 1 << 12;
    let cxt = 4242u32;
    let h = mix(cxt);
    let chk = (h >> 24) as u8;
    assert!(chk != 0);
    let i = (h as usize * 16) & (size - 16);

    // All three searched slots in use; the first has the highest history.
    let mut table = HashTable::new(size);
    for (slot, first) in [(i, 9u8), (i ^ 16, 5), (i ^ 32, 7), (i ^ 48, 1)] {
        table.set(slot, chk.wrapping_add(1));
        table.set(slot + 1, first);
        table.set(slot + 2, 33);
    }
    // 9 > 5: move to i ^ 16; 5 > history of (i ^ 16) ^ 48 = i ^ 32? No, 7.
    assert_eq!(table.hash(cxt), i ^ 16);
    assert_eq!(table.get(i ^ 16), chk);
    assert_eq!(table.get((i ^ 16) + 1), 0);
    assert_eq!(table.get((i ^ 16) + 2), 0);
    assert_eq!(table.get(i + 1), 9);

    // The first slot has the lowest history of the three searched, but a
    // higher one than the slot across both bits.
    let mut table = HashTable::new(size);
    for (slot, first) in [(i, 3u8), (i ^ 16, 5), (i ^ 32, 7), (i ^ 48, 1)] {
        table.set(slot, chk.wrapping_add(1));
        table.set(slot + 1, first);
    }
    assert_eq!(table.hash(cxt), i ^ 48);
    assert_eq!(table.get(i ^ 48), chk);
    assert_eq!(table.get((i ^ 48) + 1), 0);
}

#[test]
fn hash_table_fresh_lookup_claims_home_slot() {
    let size = 1 << 12;
    let cxt = 31337u32;
    let h = mix(cxt);
    let chk = (h >> 24) as u8;
    assert!(chk != 0);
    let i = (h as usize * 16) & (size - 16);
    let mut table = HashTable::new(size);
    assert_eq!(table.hash(cxt), i);
    assert_eq!(table.get(i), chk);
    assert_eq!(table.hash(cxt), i);
}

#[test]
fn context_model_walks_its_slot() {
    let mut hist = Histories::new(1 << 12);
    let mut cm = ContextModel::new(Order::Two);
    assert_eq!(cm.state(), StateRef::Direct(0));
    // First half-byte: the walk starts where the model was created.
    cm.update(1, &mut hist);
    assert_eq!(cm.state(), StateRef::Direct(2));
    cm.update(0, &mut hist);
    assert_eq!(cm.state(), StateRef::Direct(4));
    cm.update(1, &mut hist);
    assert_eq!(cm.state(), StateRef::Direct(12));
    assert_eq!(hist.get(StateRef::Direct(0)), next_state(0, 1));
    assert_eq!(hist.get(StateRef::Direct(2)), next_state(0, 0));
    // Fourth bit: a slot of the hashed table, found by key and bits.
    cm.update(1, &mut hist);
    let slot = match cm.state() {
        StateRef::Hashed(i) => i,
        StateRef::Direct(_) => panic!("not in the hashed table"),
    };
    assert_eq!(slot % 16, 1);
    assert_eq!(cm.cxt(), 0b11011);
    cm.update(0, &mut hist);
    assert_eq!(cm.state(), StateRef::Hashed(slot + 1));
    cm.update(1, &mut hist);
    assert_eq!(cm.state(), StateRef::Hashed(slot + 1 + 4));
    cm.update(1, &mut hist);
    assert_eq!(cm.state(), StateRef::Hashed(slot + 1 + 4 + 8));
    // Eighth bit: the byte is whole, the key moves on.
    cm.update(0, &mut hist);
    assert_eq!(cm.cxt(), 1);
    assert_eq!(cm.key(), ((0b1011_0110u32) << 5) | 0x5700_0000);
}

#[test]
fn context_model_keys() {
    let mut hist = Histories::new(1 << 12);
    let feed = |cm: &mut ContextModel, hist: &mut Histories, bytes: &[u8]| {
        for byte in bytes {
            for k in (0..8).rev() {
                cm.update(((byte >> k) & 1) as i32, hist);
            }
        }
    };
    let mut one = ContextModel::new(Order::One);
    feed(&mut one, &mut hist, b"ab");
    assert_eq!(one.key(), (b'b' as u32) << 8);
    assert_eq!(one.state(), StateRef::Direct(((b'b' as usize) << 8) + 1));
    let mut three = ContextModel::new(Order::Three);
    feed(&mut three, &mut hist, b"abcd");
    assert_eq!(three.key(), 0x6263_6400u32.wrapping_mul(3));
    let mut four = ContextModel::new(Order::Four);
    feed(&mut four, &mut hist, b"abcd");
    assert_eq!(four.key(), 0x6162_6364u32.wrapping_mul(5));
    let mut six = ContextModel::new(Order::Six);
    feed(&mut six, &mut hist, b"ab");
    assert_eq!(six.key(), (97 * 13 * 352 + 98 * 13) & 0x3FFF_FFFF);
    let mut word = ContextModel::new(Order::Word);
    feed(&mut word, &mut hist, b"aB");
    assert_eq!(word.key(), (97u32 * 56 + 98) * 56);
    feed(&mut word, &mut hist, b" ");
    assert_eq!(word.key(), 0);
}

#[test]
fn lpaq1_predictor_learns_a_constant_stream() {
    let mut p = LpaqPredictor::new();
    assert_eq!(p.p(), 2048);
    for _ in 0..400 {
        p.update(0);
        assert!(0 <= p.p() && p.p() <= 4095);
    }
    assert!(p.p() < 64);
}

#[test]
fn match_model_works_in_the_smallest_buffer() {
    // Four buffer bytes, one hash entry.
    let mut mm = MatchModel::new(8);
    for byte in [7u8, 7, 7, 7, 7, 7, 9, 7, 7, 200, 0, 0, 0] {
        for k in (0..8).rev() {
            let p = mm.p(((byte >> k) & 1) as i32);
            assert!(0 <= p && p <= 4095);
            assert!(mm.len() <= 62);
        }
    }
}

#[test]
fn match_model_hashes_the_last_bytes() {
    // Two runs of the same eight bytes: at the end of the second, the
    // long hash leads back to the end of the first.
    let mut mm = MatchModel::new(1 << 16);
    let run = b"abcdefgh";
    for byte in run.iter().chain(b"0123456789".iter()).chain(run.iter()) {
        for k in (0..8).rev() {
            mm.p(((byte >> k) & 1) as i32);
        }
    }
    assert_eq!(mm.len(), 8);
}
