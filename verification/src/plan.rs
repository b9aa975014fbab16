//! Plan of a run: what a process has to know before it allocates its segment.
use crate::sizing::{auto_table_size, half_share, is_power_of_two, log2_floor, power_of_two};
use vstd::arithmetic::power2::{lemma_pow2_strictly_increases, lemma_pow2_subtracts, pow2};
use vstd::prelude::*;

verus! {

/// Sizes and counts of a run as one process sees them.
#[derive(Debug, Clone, Copy, PartialEq, Eq, Structural)]
pub struct Plan {
    /// Rank of this process.
    pub rank: u64,
    /// Number of processes, a power of two.
    pub num_procs: u64,
    pub log_num_procs: u64,
    /// Slots of the whole table, a power of two.
    pub table_size: u64,
    pub log_table_size: u64,
    /// Slots of one segment.
    pub local_table_size: u64,
    pub log_table_local: u64,
    /// Global index of the first slot of this process.
    pub global_start: u64,
    /// Recommended number of updates of the whole run.
    pub default_updates: u64,
    /// Number of updates of the whole run.
    pub num_updates: u64,
    /// Number of updates that each process makes.
    pub proc_num_updates: i64,
}

impl Plan {
    /// The sizes fit together.
    pub open spec fn valid(self) -> bool {
        &&& self.num_procs == pow2(self.log_num_procs as nat)
        &&& self.table_size == pow2(self.log_table_size as nat)
        &&& self.local_table_size == pow2(self.log_table_local as nat)
        &&& self.log_table_size == self.log_table_local + self.log_num_procs
        &&& self.local_table_size * self.num_procs == self.table_size
        &&& self.global_start == self.local_table_size * self.rank
        &&& self.default_updates == 4 * self.table_size
        &&& 4 * self.global_start <= u64::MAX
        &&& self.proc_num_updates == (self.num_updates / self.num_procs) as i64
    }

    /// Position in the stream from which this process starts its updates.
    pub open spec fn seed_position(self) -> nat {
        4 * self.global_start as nat
    }
}

/// Why a multi-process run cannot start.
#[derive(Debug, Clone, Copy, PartialEq, Eq, Structural)]
pub enum JobSizeError {
    /// A single process has nothing to exchange.
    SingleProcess,
    /// The number of processes is not a power of two.
    NotPowerOfTwo,
}

/// Whether a multi-process run can use `size` processes.
pub fn check_job_size(size: u64) -> (result: Result<(), JobSizeError>)
    ensures
        result is Ok <==> size != 1 && power_of_two(size),
        result == Err::<(), JobSizeError>(JobSizeError::SingleProcess) <==> size == 1,
        result == Err::<(), JobSizeError>(JobSizeError::NotPowerOfTwo) <==> size != 1
            && !power_of_two(size),
        result is Ok <==> size >= 2 && size & ((size - 1) as u64) == 0,
{
    if size == 1 {
        Err(JobSizeError::SingleProcess)
    } else if !is_power_of_two(size) {
        Err(JobSizeError::NotPowerOfTwo)
    } else {
        Ok(())
    }
}

/// Slots of the whole table: two to the power asked for, or what the memory
/// suggests.
pub fn choose_table_size(table_size_log: Option<u64>, total_elements: u64, num_procs: u64) -> (size:
    u64)
    requires
        num_procs >= 1,
        table_size_log matches Some(log) ==> log < 64,
    ensures
        power_of_two(size),
        table_size_log matches Some(log) ==> size == pow2(log as nat),
        table_size_log is None ==> {
            let half = half_share(total_elements, num_procs);
            &&& half == 0 ==> size == 1
            &&& half > 0 ==> size <= half < 2 * size
        },
        table_size_log is None ==> {
            let half = total_elements / 2 - (total_elements / 2) % num_procs;
            size == 1 && half < 2 || size <= half < 2 * size
        },
{
    match table_size_log {
        Some(log) => {
            proof {
                vstd::bits::lemma_u64_pow2_no_overflow(log as nat);
                vstd::bits::lemma_u64_shl_is_mul(1, log);
                assert(1u64 << log == pow2(log as nat));
            }
            1u64 << log
        },
        None => auto_table_size(total_elements, num_procs),
    }
}

/// The plan of process `rank` for a table of `table_size` slots. Without a
/// number of updates the run makes four times as many as there are slots.
pub fn make_plan(rank: u64, num_procs: u64, table_size: u64, num_updates_arg: Option<u64>) -> (plan:
    Plan)
    requires
        power_of_two(num_procs),
        power_of_two(table_size),
        num_procs <= table_size,
        4 * table_size <= u64::MAX,
        4 * ((table_size / num_procs) * rank) <= u64::MAX,
    ensures
        plan.valid(),
        plan.rank == rank,
        plan.num_procs == num_procs,
        plan.table_size == table_size,
        num_updates_arg matches Some(n) ==> plan.num_updates == n,
        num_updates_arg is None ==> plan.num_updates == plan.default_updates,
        plan.default_updates == 4 * table_size,
        num_updates_arg is None ==> plan.num_updates == 4 * table_size,
        plan.local_table_size == table_size / num_procs,
        plan.global_start == (table_size / num_procs) * rank,
        plan.proc_num_updates == (plan.num_updates / num_procs) as i64,
        plan.num_updates / num_procs <= i64::MAX ==> {
            &&& plan.proc_num_updates * num_procs <= plan.num_updates
            &&& plan.num_updates < (plan.proc_num_updates + 1) * num_procs
        },
        num_procs == pow2(plan.log_num_procs as nat),
        table_size == pow2(plan.log_table_size as nat),
        table_size / num_procs == pow2(plan.log_table_local as nat),
{
    let log_num_procs: u64 = log2_floor(num_procs);
    let log_table_size: u64 = log2_floor(table_size);
    proof {
        if log_table_size < log_num_procs {
            lemma_pow2_strictly_increases(log_table_size as nat, log_num_procs as nat);
        }
        vstd::arithmetic::power2::lemma_pow2_pos(log_num_procs as nat);
        let l = (log_table_size - log_num_procs) as nat;
        lemma_pow2_subtracts(log_num_procs as nat, log_table_size as nat);
        vstd::arithmetic::power2::lemma_pow2_adds(l, log_num_procs as nat);
    }
    let local_table_size: u64 = table_size / num_procs;
    let log_table_local: u64 = log_table_size - log_num_procs;
    let global_start: u64 = local_table_size * rank;
    let default_updates: u64 = 4 * table_size;
    let num_updates: u64 = match num_updates_arg {
        Some(n) => n,
        None => default_updates,
    };
    let proc_num_updates: i64 = (num_updates / num_procs) as i64;
    proof {
        let (u, p, q) = (num_updates as int, num_procs as int, (num_updates / num_procs) as int);
        assert(q * p <= u < (q + 1) * p) by (nonlinear_arith)
            requires
                p > 0,
                q == u / p,
        ;
    }
    Plan {
        rank,
        num_procs,
        log_num_procs,
        table_size,
        log_table_size,
        local_table_size,
        log_table_local,
        global_start,
        default_updates,
        num_updates,
        proc_num_updates,
    }
}

/// The segments lie end to end and fill the table.
pub proof fn lemma_segments_fill_table(plan: Plan, next: Plan)
    requires
        plan.valid(),
        next.valid(),
        plan.num_procs == next.num_procs,
        plan.table_size == next.table_size,
        plan.rank < plan.num_procs,
    ensures
        next.local_table_size == plan.local_table_size,
        plan.rank == 0 ==> plan.global_start == 0,
        next.rank == plan.rank + 1 ==> next.global_start == plan.global_start
            + plan.local_table_size,
        plan.rank == plan.num_procs - 1 ==> plan.global_start + plan.local_table_size
            == plan.table_size,
        plan.global_start + plan.local_table_size <= plan.table_size,
{
    let (s, t, r, p) = (
        plan.local_table_size as int,
        next.local_table_size as int,
        plan.rank as int,
        plan.num_procs as int,
    );
    assert(s == t) by (nonlinear_arith)
        requires
            s * p == t * p,
            p > 0,
    ;
    assert(s * (r + 1) == s * r + s) by (nonlinear_arith);
    assert(s * (r + 1) <= s * p) by (nonlinear_arith)
        requires
            r + 1 <= p,
            s >= 0,
    ;
    assert(s * 0 == 0) by (nonlinear_arith);
}

/// The sizes of a plan are those that verification and the update phase ask for.
pub proof fn lemma_plan_suits_verification(plan: Plan)
    requires
        plan.valid(),
        plan.rank < plan.num_procs,
    ensures
        plan.local_table_size >= 1,
        plan.num_procs >= 1,
        plan.log_num_procs <= plan.log_table_size,
        plan.log_table_size - plan.log_num_procs < 64,
        plan.global_start + plan.local_table_size <= u64::MAX + 1,
        4 * (plan.local_table_size * (plan.num_procs - 1)) <= u64::MAX,
{
    vstd::arithmetic::power2::lemma_pow2_pos(plan.log_table_local as nat);
    vstd::arithmetic::power2::lemma2_to64_rest();
    if plan.log_table_local >= 64 {
        if plan.log_table_local > 64 {
            lemma_pow2_strictly_increases(64, plan.log_table_local as nat);
        }
    }
    lemma_segments_fill_table(plan, plan);
    let (s, p) = (plan.local_table_size as int, plan.num_procs as int);
    assert(s * (p - 1) <= s * p) by (nonlinear_arith)
        requires
            s >= 1,
    ;
}

/// The positions from which the processes start, by the sizes of the run: four
/// for every slot before the segment.
pub proof fn lemma_seed_position(plan: Plan)
    requires
        plan.valid(),
    ensures
        plan.local_table_size == plan.table_size / plan.num_procs,
        plan.seed_position() == 4 * ((plan.table_size / plan.num_procs) * plan.rank),
{
    let (s, p, t) = (
        plan.local_table_size as int,
        plan.num_procs as int,
        plan.table_size as int,
    );
    vstd::arithmetic::power2::lemma_pow2_pos(plan.log_num_procs as nat);
    assert(t / p == s) by (nonlinear_arith)
        requires
            s * p == t,
            p > 0,
    ;
}

/// Number of updates that warm up a single-process run: one in a hundred, at
/// least one and at most ten thousand.
pub open spec fn warmup_updates(proc_num_updates: i64) -> nat {
    if proc_num_updates / 100 < 1 {
        1
    } else if proc_num_updates / 100 > 10_000 {
        10_000
    } else {
        (proc_num_updates / 100) as nat
    }
}

/// Number of updates made before the timed phase of a single process, to settle
/// caches and branch predictors.
pub fn warmup_count(proc_num_updates: i64) -> (count: i64)
    ensures
        count == warmup_updates(proc_num_updates),
        proc_num_updates < 200 ==> count == 1,
        200 <= proc_num_updates < 1_000_000 ==> count == proc_num_updates / 100,
        1_000_000 <= proc_num_updates ==> count == 10_000,
{
    if proc_num_updates < 100 {
        1
    } else {
        let hundredth: i64 = proc_num_updates / 100;
        if hundredth > 10_000 {
            10_000
        } else {
            hundredth
        }
    }
}

/// Number of updates that each process of a job makes before the timed phase, so
/// that pages are touched and connections are made.
pub fn distributed_warmup_count(num_updates: u64) -> (count: i64)
    ensures
        count == (if num_updates / 10 < 1000 {
            num_updates / 10
        } else {
            1000
        }),
{
    let tenth: u64 = num_updates / 10;
    if tenth < 1000 {
        tenth as i64
    } else {
        1000
    }
}

} // verus!
