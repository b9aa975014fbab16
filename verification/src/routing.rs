//! Which process owns the slot that a datum selects.
use crate::bits::lemma_unsigned_round_trip;
use vstd::arithmetic::power2::lemma_pow2_adds;
use vstd::bits::{lemma_u64_pow2_no_overflow, lemma_u64_shl_is_mul};
use vstd::prelude::*;

verus! {

/// Rank of the process that owns the slot which `w` selects, where every
/// process holds `2^log_table_local` slots.
pub open spec fn owner(w: u64, log_table_local: u64, num_procs: u64) -> u64 {
    (((w as i64) >> log_table_local) & ((num_procs - 1) as u64 as i64)) as u64
}

/// The owner is one of the processes.
pub proof fn lemma_owner_in_range(w: u64, log_table_local: u64, num_procs: u64)
    requires
        num_procs >= 1,
    ensures
        owner(w, log_table_local, num_procs) < num_procs,
{
    let m = (num_procs - 1) as u64;
    let shifted = (w as i64) >> log_table_local;
    assert((shifted & (m as i64)) as u64 <= m) by (bit_vector);
}

/// Rank of the process that the update by `ran` is meant for.
pub fn target_process(ran: i64, log_table_local: u64, num_procs: u64) -> (rank: u64)
    requires
        log_table_local < 64,
        num_procs >= 1,
    ensures
        rank == owner(ran as u64, log_table_local, num_procs),
        rank == ((ran >> log_table_local) & ((num_procs - 1) as u64 as i64)) as u64,
        rank < num_procs,
{
    let proc_mask: i64 = (num_procs - 1) as i64;
    let rank: u64 = ((ran >> log_table_local) & proc_mask) as u64;
    proof {
        lemma_unsigned_round_trip(ran);
        lemma_owner_in_range(ran as u64, log_table_local, num_procs);
    }
    rank
}

/// A datum selects one slot of the whole table, and its owner and the slot
/// there are the quotient and the remainder of that index by the size of a
/// segment.
pub proof fn lemma_owner_and_slot(w: u64, log_table_local: u64, log_num_procs: u64)
    requires
        log_table_local + log_num_procs < 64,
    ensures
        ({
            let local_size = 1u64 << log_table_local;
            let num_procs = 1u64 << log_num_procs;
            let table_size = 1u64 << ((log_table_local + log_num_procs) as u64);
            let rank = owner(w, log_table_local, num_procs);
            let slot = w & ((local_size - 1) as u64);
            &&& local_size * num_procs == table_size
            &&& rank < num_procs
            &&& slot < local_size
            &&& local_size * rank + slot == w & ((table_size - 1) as u64)
        }),
{
    let (l, n) = (log_table_local, log_num_procs);
    let local_size = 1u64 << l;
    let num_procs = 1u64 << n;
    let table_size = 1u64 << ((l + n) as u64);
    let rank = owner(w, l, num_procs);
    let slot = w & ((local_size - 1) as u64);
    assert(rank < num_procs && slot < local_size && (rank << l) + slot == w & ((table_size
        - 1) as u64)) by (bit_vector)
        requires
            l + n < 64,
            local_size == 1u64 << l,
            num_procs == 1u64 << n,
            table_size == 1u64 << ((l + n) as u64),
            rank == (((w as i64) >> l) & ((num_procs - 1) as u64 as i64)) as u64,
            slot == w & ((local_size - 1) as u64),
    ;
    lemma_u64_pow2_no_overflow(l as nat);
    lemma_u64_pow2_no_overflow(n as nat);
    lemma_u64_pow2_no_overflow((l + n) as nat);
    lemma_u64_shl_is_mul(1, l);
    lemma_u64_shl_is_mul(1, n);
    lemma_u64_shl_is_mul(1, (l + n) as u64);
    lemma_pow2_adds(l as nat, n as nat);
    assert(rank * local_size <= num_procs * local_size) by (nonlinear_arith)
        requires
            rank < num_procs,
            local_size >= 0,
    ;
    assert(num_procs * local_size == local_size * num_procs) by (nonlinear_arith);
    assert(rank * local_size == local_size * rank) by (nonlinear_arith);
    lemma_u64_shl_is_mul(rank, l);
}

} // verus!
