use gups::comm::{
    collective_next, delivery_next, segment_bytes, CollectiveStep, DeliveryEvent, DeliveryStep,
    Directory, PMIX_KEY_UCX_ADDR, PMIX_KEY_UCX_MEMH, PMIX_KEY_UCX_TABLE_ADDR, TAG_SYNC, TAG_VERIFY,
};
use gups::comm::DeliveryEvent::{Completed, Failed, InFlight};
use gups::comm::DeliveryStep::{Done, Flush, PollFlush, PollUpdate, Post};

#[test]
fn test_tag_constants() {
    assert_eq!(TAG_SYNC, 0x3000);
    assert_eq!(TAG_VERIFY, 0x4000);
    assert_ne!(TAG_SYNC, TAG_VERIFY);
    assert_ne!(TAG_SYNC, 0);
    assert_ne!(TAG_VERIFY, 0);
}

#[test]
fn test_pmix_key_constants() {
    assert_eq!(PMIX_KEY_UCX_ADDR, "gups.ucx.addr");
    assert_eq!(PMIX_KEY_UCX_MEMH, "gups.ucx.memh");
    assert_eq!(PMIX_KEY_UCX_TABLE_ADDR, "gups.ucx.table_addr");
}

#[test]
fn directory_has_one_entry_per_process() {
    let mut directory = Directory::new(1, 4, vec![7, 8], 0x1000);
    assert_eq!(directory.size(), 4);
    assert_eq!(directory.worker_addr(1), &vec![7, 8]);
    assert!(directory.worker_addr(0).is_empty());
    assert_eq!(directory.slot_address(1, 3), 0x1018);
    assert_eq!(directory.slot_address(2, 3), 24);
    directory.record(2, vec![1], vec![2, 3], 0x2000);
    assert_eq!(directory.worker_addr(2), &vec![1]);
    assert_eq!(directory.access_key(2), &vec![2, 3]);
    assert_eq!(directory.slot_address(2, 0), 0x2000);
    assert!(directory.access_key(3).is_empty());
    assert_eq!(directory.size(), 4);
}

#[test]
fn own_updates_need_no_endpoint() {
    let directory = Directory::new(1, 4, vec![], 0);
    let needs: Vec<bool> = (0..4).map(|p| directory.needs_endpoint(p)).collect();
    assert_eq!(needs, vec![true, false, true, true]);
}

#[test]
fn slots_lie_inside_the_segment() {
    let directory = Directory::new(0, 1, vec![], 0);
    assert_eq!(segment_bytes(16), 128);
    assert_eq!(directory.slot_address(0, 15) + 8, 128);
}

/// The steps that a delivery takes for `events`, and the failures reported.
fn deliver(events: &[DeliveryEvent]) -> (Vec<DeliveryStep>, usize, usize) {
    let mut step = DeliveryStep::Post;
    let mut steps = vec![step];
    let (mut progressed, mut reported) = (0, 0);
    for event in events {
        let next = delivery_next(step, *event);
        step = next.next;
        steps.push(step);
        if next.progress {
            progressed += 1;
        }
        if next.report {
            reported += 1;
        }
    }
    (steps, progressed, reported)
}

#[test]
fn delivery_ends_after_the_flush() {
    assert_eq!(deliver(&[Completed, Completed]), (vec![Post, Flush, Done], 0, 0));
    assert_eq!(
        deliver(&[InFlight, InFlight, Completed, InFlight, InFlight, Completed]),
        (vec![Post, PollUpdate, PollUpdate, Flush, PollFlush, PollFlush, Done], 2, 0)
    );
    assert_eq!(
        deliver(&[Failed, InFlight, Failed]),
        (vec![Post, Flush, PollFlush, Done], 0, 2)
    );
    assert_eq!(
        deliver(&[InFlight, Failed, Completed]),
        (vec![Post, PollUpdate, Flush, Done], 0, 1)
    );
}

#[test]
fn collectives_progress_until_complete() {
    assert_eq!(collective_next(false), CollectiveStep::Progress);
    assert_eq!(collective_next(true), CollectiveStep::Finalize);
}
