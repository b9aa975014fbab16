use gups::table::{apply_stream, apply_update, init_table};

#[test]
fn init_and_update() {
    let mut t = vec![0u64; 8];
    init_table(&mut t, 0);
    assert_eq!(t[0], 0);
    assert_eq!(t[7], 7);
    apply_update(&mut t, 1, 7); // idx 1
    assert_eq!(t[1], 1 ^ 1);
}

#[test]
fn init_counts_up_from_the_offset() {
    let mut t = vec![9u64; 4];
    init_table(&mut t, 100);
    assert_eq!(t, vec![100, 101, 102, 103]);
    let mut last = vec![0u64; 2];
    init_table(&mut last, u64::MAX - 1);
    assert_eq!(last, vec![u64::MAX - 1, u64::MAX]);
    let mut none: Vec<u64> = vec![];
    init_table(&mut none, u64::MAX);
    assert!(none.is_empty());
}

#[test]
fn update_touches_one_slot() {
    let mut t = vec![0u64; 8];
    init_table(&mut t, 10);
    apply_update(&mut t, 0xF3, 7);
    assert_eq!(t, vec![10, 11, 12, 13 ^ 0xF3, 14, 15, 16, 17]);
}

#[test]
fn update_twice_is_undone() {
    let mut t = vec![0u64; 8];
    init_table(&mut t, 3);
    let before = t.clone();
    apply_update(&mut t, 0xDEAD_BEEF, 7);
    assert_ne!(t, before);
    apply_update(&mut t, 0xDEAD_BEEF, 7);
    assert_eq!(t, before);
}

#[test]
fn updates_change_places() {
    let mut a = vec![0u64; 4];
    let mut b = vec![0u64; 4];
    init_table(&mut a, 0);
    init_table(&mut b, 0);
    for d in [0x11u64, 0x25, 0x39] {
        apply_update(&mut a, d, 3);
    }
    for d in [0x39u64, 0x11, 0x25] {
        apply_update(&mut b, d, 3);
    }
    assert_eq!(a, b);
}

#[test]
fn stream_updates_the_table() {
    let mut t = vec![0u64; 8];
    init_table(&mut t, 0);
    let last = apply_stream(&mut t, 1, 100, 7);
    assert_eq!(t, vec![18446743661392691216, 1, 0, 3, 28, 5, 8, 0]);
    assert_eq!(last, gups::rng::starts(100));
}

#[test]
fn stream_without_updates_changes_nothing() {
    let mut t = vec![0u64; 4];
    init_table(&mut t, 0);
    assert_eq!(apply_stream(&mut t, -5, 0, 3), -5);
    assert_eq!(apply_stream(&mut t, 77, -1, 3), 77);
    assert_eq!(t, vec![0, 1, 2, 3]);
}
