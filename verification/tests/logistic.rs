use lossless::logistic::build_stretch_table;
use lossless::logistic::squash;
use lossless::logistic::stretch;
use lossless::logistic::StretchTable;

#[test]
fn squash_at_the_anchors() {
    assert_eq!(squash(0), 2047);
    assert_eq!(squash(128), 2549);
    assert_eq!(squash(-128), 1546);
    assert_eq!(squash(-2047), 1);
    assert_eq!(squash(2047), 4094);
}

#[test]
fn squash_saturates_outside_its_range() {
    assert_eq!(squash(2048), 4095);
    assert_eq!(squash(-2048), 0);
    assert_eq!(squash(i32::MAX), 4095);
    assert_eq!(squash(i32::MIN), 0);
}

#[test]
fn squash_interpolates_between_anchors() {
    // (2047 * 127 + 2549 * 1 + 64) / 128
    assert_eq!(squash(1), 2051);
    // (2047 * 64 + 2549 * 64 + 64) / 128
    assert_eq!(squash(64), 2298);
    // (1546 * 1 + 2047 * 127 + 64) / 128
    assert_eq!(squash(-1), 2043);
}

#[test]
fn stretch_at_the_ends_and_the_middle() {
    assert_eq!(stretch(0), -2047);
    assert_eq!(stretch(1), -2047);
    assert_eq!(stretch(2047), 0);
    assert_eq!(stretch(2048), 1);
    // The curve reaches 4094 at 1984 and stays there.
    assert_eq!(stretch(4094), 1984);
    assert_eq!(stretch(4095), 2047);
}

#[test]
fn stretch_is_the_least_value_that_squash_takes_there() {
    for p in 2..4095 {
        let s = stretch(p);
        assert!(squash(s) >= p);
        assert!(squash(s - 1) < p);
    }
}

#[test]
fn stretch_table_agrees_with_stretch() {
    let built = build_stretch_table();
    let table = StretchTable::new();
    assert_eq!(built.len(), 4096);
    for p in 0..4096 {
        assert_eq!(built[p as usize] as i32, stretch(p));
        assert_eq!(table.stretch(p), stretch(p));
    }
}

#[test]
fn squash_of_stretch_stays_near() {
    let mut worst = 0;
    for p in 0..4096 {
        let d = squash(stretch(p)) - p;
        assert!(-1 <= d && d <= 3, "p = {}, d = {}", p, d);
        if d > worst {
            worst = d;
        }
    }
    assert_eq!(squash(stretch(2048)) - 2048, 3);
    assert_eq!(worst, 3);
}

#[test]
fn stretch_undoes_squash_on_its_values() {
    for d in -2047..=2047 {
        let p = squash(d);
        assert_eq!(squash(stretch(p)), p);
    }
}

#[test]
fn squash_and_stretch_never_fall() {
    for d in -2100..2100 {
        assert!(squash(d) <= squash(d + 1));
        assert!(stretch(squash(d)) <= stretch(squash(d + 1)));
    }
    for p in 0..4095 {
        assert!(stretch(p) <= stretch(p + 1));
    }
}
