//! Sizes of the run: the table, its segments and the number of updates.
use crate::bits::bit;
use vstd::arithmetic::power2::{lemma_pow2_strictly_increases, pow2};
use vstd::prelude::*;

verus! {

/// Whether `n` is a power of two.
pub open spec fn power_of_two(n: u64) -> bool {
    exists|k: nat| n == #[trigger] pow2(k)
}

/// A power of two has one bit, at the place of its exponent.
proof fn lemma_single_bit(n: u64, k: nat)
    requires
        n == pow2(k),
    ensures
        k < 64,
        n == 1u64 << (k as u64),
        n & ((n - 1) as u64) == 0,
        forall|j: nat| #![trigger bit(n, j)] j < 64 && bit(n, j) ==> j == k,
{
    vstd::arithmetic::power2::lemma2_to64_rest();
    if k > 64 {
        lemma_pow2_strictly_increases(64, k);
    }
    let i = k as u64;
    vstd::bits::lemma_u64_shl_is_mul(1, i);
    assert(n & ((n - 1) as u64) == 0) by (bit_vector)
        requires
            i < 64,
            n == 1u64 << i,
    ;
    assert forall|j: nat| #![trigger bit(n, j)] j < 64 && bit(n, j) implies j == k by {
        let p = j as u64;
        assert(p == i) by (bit_vector)
            requires
                i < 64,
                p < 64,
                n == 1u64 << i,
                (n >> p) & 1 == 1,
        ;
    }
}

/// Whether `n` is a power of two: not 0, and free of any bit below its top bit.
pub fn is_power_of_two(n: u64) -> (yes: bool)
    ensures
        yes == power_of_two(n),
        yes <==> n != 0 && n & ((n - 1) as u64) == 0,
        yes <==> exists|k: nat| n == #[trigger] pow2(k),
{
    proof {
        if power_of_two(n) {
            let k = choose|k: nat| n == #[trigger] pow2(k);
            lemma_single_bit(n, k);
            vstd::arithmetic::power2::lemma_pow2_pos(k);
        }
        if n > 0 && n & ((n - 1) as u64) == 0 {
            vstd::std_specs::bits::axiom_u64_trailing_zeros(n);
            let r = vstd::std_specs::bits::u64_trailing_zeros(n) as u64;
            assert(n == 1u64 << r) by (bit_vector)
                requires
                    n > 0,
                    n & ((n - 1) as u64) == 0,
                    r < 64,
                    (n >> r) & 1 == 1,
            ;
            vstd::bits::lemma_u64_pow2_no_overflow(r as nat);
            vstd::bits::lemma_u64_shl_is_mul(1, r);
            assert(n == pow2(r as nat));
        }
    }
    n > 0 && (n & (n - 1)) == 0
}

/// Place of the lowest bit of `n`, and 64 for 0. Of a power of two this is the
/// logarithm.
pub fn log2_floor(n: u64) -> (log: u64)
    ensures
        n == 0 ==> log == 64,
        n != 0 ==> log < 64 && bit(n, log as nat) && forall|j: nat| j < log ==> !bit(n, j),
        power_of_two(n) ==> n == pow2(log as nat),
        n != 0 ==> (n >> log) & 1 == 1 && forall|j: u64| j < log ==> (#[trigger] (n >> j)) & 1 == 0,
        n != 0 && n & ((n - 1) as u64) == 0 ==> n == pow2(log as nat),
{
    let log: u64 = n.trailing_zeros() as u64;
    proof {
        vstd::std_specs::bits::axiom_u64_trailing_zeros(n);
        if power_of_two(n) {
            let k = choose|k: nat| n == #[trigger] pow2(k);
            lemma_single_bit(n, k);
            vstd::arithmetic::power2::lemma_pow2_pos(k);
            assert(bit(n, log as nat));
        }
        if n != 0 && n & ((n - 1) as u64) == 0 {
            assert(n == 1u64 << log) by (bit_vector)
                requires
                    n != 0,
                    n & ((n - 1) as u64) == 0,
                    log < 64,
                    (n >> log) & 1 == 1,
            ;
            vstd::bits::lemma_u64_pow2_no_overflow(log as nat);
            vstd::bits::lemma_u64_shl_is_mul(1, log);
        }
        assert forall|j: nat| j < log implies !bit(n, j) by {
            assert((n >> (j as u64)) & 1 == 0);
        }
    }
    log
}

/// One is a power of two, and twice a number is one exactly where the number is.
pub proof fn lemma_powers_double(n: u64)
    requires
        2 * n <= u64::MAX,
    ensures
        power_of_two(1),
        !power_of_two(0),
        n >= 1 ==> (power_of_two((2 * n) as u64) <==> power_of_two(n)),
        n >= 1 ==> !power_of_two((2 * n + 1) as u64),
{
    vstd::arithmetic::power2::lemma2_to64();
    assert(1u64 == pow2(0));
    if power_of_two(0) {
        vstd::arithmetic::power2::lemma_pow2_pos(choose|k: nat| 0u64 == #[trigger] pow2(k));
    }
    if n >= 1 {
        if power_of_two(n) {
            let k = choose|k: nat| n == #[trigger] pow2(k);
            vstd::arithmetic::power2::lemma_pow2_unfold(k + 1);
            assert((2 * n) as u64 == pow2(k + 1));
        }
        if power_of_two((2 * n) as u64) {
            let k = choose|k: nat| (2 * n) as u64 == #[trigger] pow2(k);
            vstd::arithmetic::power2::lemma_pow2_unfold(k);
            assert(n == pow2((k - 1) as nat));
        }
        if power_of_two((2 * n + 1) as u64) {
            let k = choose|k: nat| (2 * n + 1) as u64 == #[trigger] pow2(k);
            vstd::arithmetic::power2::lemma_pow2_unfold(k);
        }
    }
}

/// The number of elements to fill when half of `total_elements` is split evenly
/// over `num_procs` processes.
pub open spec fn half_share(total_elements: u64, num_procs: u64) -> nat {
    ((total_elements / 2) / num_procs) as nat * num_procs as nat
}

/// The largest power of two within half of the memory, rounded down to a
/// multiple of the number of processes, and 1 where that half is empty.
pub fn auto_table_size(total_elements: u64, num_procs: u64) -> (size: u64)
    requires
        num_procs >= 1,
    ensures
        power_of_two(size),
        half_share(total_elements, num_procs) == 0 ==> size == 1,
        half_share(total_elements, num_procs) > 0 ==> size <= half_share(
            total_elements,
            num_procs,
        ) < 2 * size,
        ({
            let half = total_elements / 2 - (total_elements / 2) % num_procs;
            size == 1 && half < 2 || size <= half < 2 * size
        }),
        exists|k: nat| size == #[trigger] pow2(k),
{
    proof {
        let q = total_elements / 2;
        assert((q / num_procs) * num_procs <= q && (q / num_procs) * num_procs == q - q
            % num_procs) by (nonlinear_arith)
            requires
                num_procs >= 1,
        ;
    }
    let half: u64 = total_elements / 2 / num_procs * num_procs;
    let mut size: u64 = 1;
    let ghost mut k: nat = 0;
    proof {
        vstd::arithmetic::power2::lemma2_to64();
    }
    while size * 2 <= half
        invariant
            half <= u64::MAX / 2,
            size == 1 || size <= half,
            size >= 1,
            size == pow2(k),
        decreases half - size,
    {
        size = size * 2;
        proof {
            k = k + 1;
            vstd::arithmetic::power2::lemma_pow2_unfold(k);
        }
    }
    size
}

} // verus!
