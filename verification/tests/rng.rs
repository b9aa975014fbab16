use gups::register::PERIOD;
use gups::rng::{lfsr_step, starts};

#[test]
fn test_lfsr_step() {
    // Starting from 1: (1 << 1) ^ 0 = 2
    assert_eq!(lfsr_step(1), 2);
    // From 2: (2 << 1) ^ 0 = 4
    assert_eq!(lfsr_step(2), 4);
}

#[test]
fn test_starts_zero() {
    assert_eq!(starts(0), 0x1);
}

#[test]
fn test_starts_one() {
    // After 1 step from initial 1: lfsr_step(1) = 2
    assert_eq!(starts(1), 2i64);
}

#[test]
fn test_starts_period() {
    // After PERIOD steps we should be back to 1
    assert_eq!(starts(PERIOD), 0x1);
}

#[test]
fn test_starts_consistency() {
    // starts(a+b) should equal stepping starts(a) by b steps
    let a: u64 = 12345;
    let b: u64 = 67890;
    let combined = starts(a + b);
    let step_a = starts(a);
    let mut stepped = step_a;
    for _ in 0..b {
        stepped = lfsr_step(stepped);
    }
    assert_eq!(combined, stepped);
}

#[test]
fn step_feeds_the_top_bit_back() {
    assert_eq!(lfsr_step(i64::MIN), 7);
    assert_eq!(lfsr_step(-1), -7);
    assert_eq!(lfsr_step(1 << 62), i64::MIN);
    assert_eq!(lfsr_step(0), 0);
}

#[test]
fn step_adds_up() {
    let (a, b) = (-0x1234_5678_9abc_def0i64, 0x0fed_cba9_8765_4321i64);
    assert_eq!(lfsr_step(a ^ b), lfsr_step(a) ^ lfsr_step(b));
}

#[test]
fn step_keeps_words_apart() {
    let words = [0, 1, 3, -1, i64::MIN, i64::MAX, i64::MIN + 1, 7];
    for a in words {
        for b in words {
            assert_eq!(lfsr_step(a) == lfsr_step(b), a == b);
        }
    }
}

#[test]
fn states_are_never_zero() {
    let mut ran = 1i64;
    for _ in 0..10_000 {
        ran = lfsr_step(ran);
        assert_ne!(ran, 0);
    }
}

#[test]
fn starts_reaches_known_states() {
    assert_eq!(starts(63), i64::MIN);
    assert_eq!(starts(64), 7);
    assert_eq!(starts(128), 0x15);
    assert_eq!(starts(12345), -4755801206503243534);
    assert_eq!(starts(80235), 3144849646318915699);
    assert_eq!(starts(1 << 40), 4294967574);
}

#[test]
fn starts_wraps_at_the_period() {
    assert_eq!(starts(PERIOD + 1), 2);
    assert_eq!(starts(PERIOD + 12345), starts(12345));
    assert_eq!(starts(14 * PERIOD), 1);
    assert_eq!(starts(u64::MAX), 2);
    assert_eq!(lfsr_step(starts(PERIOD - 1)), 1);
}
