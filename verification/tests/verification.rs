use gups::table::{apply_stream, init_table};
use gups::verify::verify_table;

#[test]
fn fresh_table_verifies_without_updates() {
    let mut t = vec![0u64; 8];
    init_table(&mut t, 0);
    assert_eq!(verify_table(&t, 8, 0, 1, 0, 3, 0, 0), 0);
    assert_eq!(verify_table(&t, 8, 0, 1, 0, 3, -3, 0), 0);
}

#[test]
fn single_process_run_verifies() {
    let mut t = vec![0u64; 8];
    init_table(&mut t, 0);
    apply_stream(&mut t, 1, 100, 7);
    assert_eq!(verify_table(&t, 8, 0, 1, 0, 3, 100, 0), 0);
    // One update more or less leaves one slot wrong.
    assert_eq!(verify_table(&t, 8, 0, 1, 0, 3, 101, 0), 1);
}

#[test]
fn every_wrong_slot_counts_once() {
    let mut t = vec![0u64; 8];
    init_table(&mut t, 0);
    t[3] = 99;
    assert_eq!(verify_table(&t, 8, 0, 1, 0, 3, 0, 0), 1);
    t[7] = 99;
    t[0] = 99;
    assert_eq!(verify_table(&t, 8, 0, 1, 0, 3, 0, 0), 3);
}

#[test]
fn only_common_slots_are_compared() {
    assert_eq!(verify_table(&[5, 6], 4, 0, 1, 0, 2, 0, 0), 2);
    assert_eq!(verify_table(&[0, 1, 2, 3, 50, 60], 4, 0, 1, 0, 2, 0, 0), 0);
    assert_eq!(verify_table(&[], 4, 0, 1, 0, 2, 0, 0), 0);
}

#[test]
fn streams_of_two_processes_are_replayed() {
    // Four slots each: the processes start at positions 0 and 16.
    assert_eq!(verify_table(&[0, 1, 2, 3], 4, 0, 2, 1, 3, 16, 0), 2);
    assert_eq!(verify_table(&[8589934584, 1, 0, 3], 4, 0, 2, 1, 3, 16, 0), 0);
    assert_eq!(verify_table(&[4, 5, 6, 7], 4, 4, 2, 1, 3, 16, 1), 1);
    assert_eq!(verify_table(&[0, 5, 6, 7], 4, 4, 2, 1, 3, 16, 1), 0);
}

#[test]
fn every_rank_replays_the_same_streams() {
    // Two slots each and one update each, 2 and 512. Both have slot 0; the first
    // belongs to rank 1 and the second to rank 0.
    assert_eq!(verify_table(&[512, 1], 2, 0, 2, 1, 2, 1, 0), 0);
    assert_eq!(verify_table(&[0, 3], 2, 2, 2, 1, 2, 1, 1), 0);
    assert_eq!(verify_table(&[2, 3], 2, 2, 2, 1, 2, 1, 1), 1);
}

#[test]
fn single_process_starts_at_its_first_index() {
    // Position 4 holds 16 and is followed by 32.
    assert_eq!(verify_table(&[33, 2], 2, 1, 1, 0, 1, 1, 0), 0);
}
