use gups::oob::{c_string, oob_key, place_chunk};

#[test]
fn keys_name_the_call_and_the_rank() {
    assert_eq!(oob_key(0, 0), b"gups.ucc.oob.0.0".to_vec());
    assert_eq!(oob_key(12, 305), b"gups.ucc.oob.12.305".to_vec());
    assert_eq!(
        oob_key(u64::MAX, u32::MAX),
        b"gups.ucc.oob.18446744073709551615.4294967295".to_vec()
    );
}

#[test]
fn keys_are_distinct() {
    let mut keys = Vec::new();
    for call in [0u64, 1, 11, 111, 112] {
        for rank in [0u32, 1, 11, 12, 111] {
            keys.push(oob_key(call, rank));
        }
    }
    let count = keys.len();
    keys.sort();
    keys.dedup();
    assert_eq!(keys.len(), count);
    assert!(keys.iter().flatten().all(|b| *b != 0));
}

#[test]
fn c_strings_end_in_zero() {
    assert_eq!(c_string(b"ab"), vec![97, 98, 0]);
    assert_eq!(c_string(&[]), vec![0]);
}

#[test]
fn chunks_lie_in_the_order_of_ranks() {
    let mut gathered = vec![0u8; 6];
    assert!(place_chunk(&mut gathered, 2, 2, &[5, 6]));
    assert_eq!(gathered, vec![0, 0, 0, 0, 5, 6]);
    assert!(place_chunk(&mut gathered, 2, 0, &[1, 2]));
    assert!(place_chunk(&mut gathered, 2, 1, &[3, 4]));
    assert_eq!(gathered, vec![1, 2, 3, 4, 5, 6]);
}

#[test]
fn chunks_of_another_length_are_refused() {
    let mut gathered = vec![9u8; 4];
    assert!(!place_chunk(&mut gathered, 2, 1, &[1]));
    assert!(!place_chunk(&mut gathered, 2, 1, &[1, 2, 3]));
    assert_eq!(gathered, vec![9; 4]);
    assert!(place_chunk(&mut gathered, 0, 7, &[]));
}
