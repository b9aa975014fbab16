use gups::plan::{check_job_size, choose_table_size, make_plan, JobSizeError, Plan};
use gups::plan::{distributed_warmup_count, warmup_count};
use gups::sizing::{auto_table_size, is_power_of_two, log2_floor};

#[test]
fn powers_of_two_are_recognised() {
    assert!(is_power_of_two(1));
    assert!(is_power_of_two(1 << 63));
    assert!(!is_power_of_two(0));
    assert!(!is_power_of_two(6));
    assert!(!is_power_of_two(u64::MAX));
}

#[test]
fn logarithm_is_the_lowest_bit() {
    assert_eq!(log2_floor(1), 0);
    assert_eq!(log2_floor(1 << 20), 20);
    assert_eq!(log2_floor(1 << 63), 63);
    assert_eq!(log2_floor(12), 2);
    assert_eq!(log2_floor(0), 64);
}

#[test]
fn table_fills_half_of_the_memory() {
    assert_eq!(auto_table_size(2048, 1), 1024);
    assert_eq!(auto_table_size(2047, 1), 512);
    assert_eq!(auto_table_size(100, 3), 32);
    // 50 elements split over 32 processes round down to 32.
    assert_eq!(auto_table_size(100, 32), 32);
    assert_eq!(auto_table_size(0, 1), 1);
    assert_eq!(auto_table_size(10, 64), 1);
    assert_eq!(auto_table_size(u64::MAX, 1), 1 << 62);
}

#[test]
fn table_size_is_chosen() {
    assert_eq!(choose_table_size(Some(20), 0, 1), 1 << 20);
    assert_eq!(choose_table_size(Some(0), 0, 4), 1);
    assert_eq!(choose_table_size(None, 2048, 2), 1024);
}

#[test]
fn job_sizes_are_checked() {
    assert_eq!(check_job_size(1), Err(JobSizeError::SingleProcess));
    assert_eq!(check_job_size(0), Err(JobSizeError::NotPowerOfTwo));
    assert_eq!(check_job_size(3), Err(JobSizeError::NotPowerOfTwo));
    assert_eq!(check_job_size(2), Ok(()));
    assert_eq!(check_job_size(1 << 20), Ok(()));
}

#[test]
fn plan_of_a_process() {
    assert_eq!(
        make_plan(3, 4, 1 << 10, None),
        Plan {
            rank: 3,
            num_procs: 4,
            log_num_procs: 2,
            table_size: 1024,
            log_table_size: 10,
            local_table_size: 256,
            log_table_local: 8,
            global_start: 768,
            default_updates: 4096,
            num_updates: 4096,
            proc_num_updates: 1024,
        }
    );
    let asked = make_plan(0, 4, 1 << 10, Some(1003));
    assert_eq!(asked.num_updates, 1003);
    assert_eq!(asked.proc_num_updates, 250);
    assert_eq!(make_plan(0, 1, 8, Some(u64::MAX)).proc_num_updates, -1);
}

#[test]
fn segments_fill_the_table() {
    let mut next = 0;
    for rank in 0..8 {
        let plan = make_plan(rank, 8, 64, None);
        assert_eq!(plan.global_start, next);
        next += plan.local_table_size;
    }
    assert_eq!(next, 64);
}

#[test]
fn warm_up_is_a_hundredth_within_bounds() {
    assert_eq!(warmup_count(-500), 1);
    assert_eq!(warmup_count(0), 1);
    assert_eq!(warmup_count(199), 1);
    assert_eq!(warmup_count(250), 2);
    assert_eq!(warmup_count(1_000_000), 10_000);
    assert_eq!(warmup_count(i64::MAX), 10_000);
}

#[test]
fn distributed_warm_up_is_a_tenth_within_bounds() {
    assert_eq!(distributed_warmup_count(0), 0);
    assert_eq!(distributed_warmup_count(9), 0);
    assert_eq!(distributed_warmup_count(250), 25);
    assert_eq!(distributed_warmup_count(9_999), 999);
    assert_eq!(distributed_warmup_count(10_000), 1000);
    assert_eq!(distributed_warmup_count(u64::MAX), 1000);
}
