//! Random number stream of the benchmark: a 64-bit linear feedback shift
//! register, with a jump to any position of its stream.
use crate::bits::lemma_signed_round_trip;
use crate::register::{lemma_square_doubles, lemma_stream_modulo_period};
use crate::register::{square_below, step, stream, PERIOD};
use vstd::prelude::*;

verus! {

/// Feedback term of the register: `x^2 + x + 1`.
pub const POLY: i64 = 0x0000000000000007;

/// Single step of the register: `(ran << 1) ^ (ran < 0 ? POLY : 0)`.
pub fn lfsr_step(ran: i64) -> (next: i64)
    ensures
        next == step(ran as u64) as i64,
        next as u64 == step(ran as u64),
        next == (ran << 1) ^ (if ran < 0 {
            7i64
        } else {
            0i64
        }),
        ran >= 0 ==> next as u64 == 2 * ran,
{
    let next: i64 = (ran << 1) ^ if ran < 0 {
        POLY
    } else {
        0
    };
    proof {
        let s = step(ran as u64);
        assert(next as u64 == s && next == s as i64 && (ran >= 0 ==> next as u64 == 2 * ran))
            by (bit_vector)
            requires
                next == (ran << 1) ^ (if ran < 0 { 7i64 } else { 0i64 }),
                s == step(ran as u64),
        ;
    }
    next
}

/// The state of the register after `n` steps from the state 1, reached by
/// repeated squaring.
pub fn starts(n: u64) -> (ran: i64)
    ensures
        ran == stream(1, n as nat) as i64,
        ran as u64 == stream(1, n as nat),
{
    let mut m: u64 = n;
    while m >= PERIOD
        invariant
            m as nat % (PERIOD as nat) == n as nat % (PERIOD as nat),
        decreases m,
    {
        assert((m - PERIOD) as nat % (PERIOD as nat) == m as nat % (PERIOD as nat))
            by (nonlinear_arith)
            requires
                m >= PERIOD,
        ;
        m = m - PERIOD;
    }
    proof {
        lemma_stream_modulo_period(1, n as nat);
        assert(stream(1, m as nat) == stream(1, n as nat));
    }
    if m == 0 {
        return 0x1;
    }
    // powers[j] is the residue of x^(2j).
    let mut powers: [u64; 64] = [0; 64];
    let mut temp: u64 = 0x1;
    for j in 0..64usize
        invariant
            temp == stream(1, 2 * j as nat),
            forall|k: int| 0 <= k < j ==> powers[k] == stream(1, 2 * k as nat),
    {
        powers[j] = temp;
        reveal_with_fuel(stream, 3);
        proof {
            lemma_signed_round_trip(temp);
        }
        let once: u64 = lfsr_step(temp as i64) as u64;
        proof {
            lemma_signed_round_trip(once);
        }
        temp = lfsr_step(once as i64) as u64;
    }
    let mut i: u32 = 62;
    proof {
        assert(m >> 63u32 == 0) by (bit_vector)
            requires
                m < 1317624576693539401,
        ;
    }
    while i > 0 && (m >> i) & 1 == 0
        invariant
            i <= 62,
            m >> ((i + 1) as u32) == 0,
            m != 0,
        decreases i,
    {
        assert(m >> i == 0) by (bit_vector)
            requires
                i <= 62,
                m >> ((i + 1) as u32) == 0,
                (m >> i) & 1 == 0,
        ;
        i = i - 1;
    }
    let mut ran: u64 = 0x2;
    proof {
        assert(m >> i == 1) by (bit_vector)
            requires
                i <= 62,
                m != 0,
                m >> ((i + 1) as u32) == 0,
                i == 0 || (m >> i) & 1 != 0,
        ;
        reveal_with_fuel(stream, 2);
        assert(step(1) == 2) by (bit_vector);
    }
    while i > 0
        invariant
            i <= 62,
            forall|k: int| 0 <= k < 64 ==> powers[k] == stream(1, 2 * k as nat),
            ran == stream(1, (m >> i) as nat),
        decreases i,
    {
        let mut sum: u64 = 0;
        for j in 0..64u32
            invariant
                forall|k: int| 0 <= k < 64 ==> powers[k] == stream(1, 2 * k as nat),
                sum == square_below(ran, j as nat),
        {
            proof {
                let s = sum;
                assert(((ran >> j) & 1 == 1 <==> (ran >> j) & 1 != 0) && s ^ 0 == s && ran >> j
                    == ran >> (j as u64)) by (bit_vector);
            }
            if (ran >> j) & 1 != 0 {
                sum = sum ^ powers[j as usize];
            }
        }
        proof {
            lemma_square_doubles((m >> i) as nat);
            let h = (i - 1) as u32;
            assert((m >> h) == 2 * (m >> i) + ((m >> h) & 1) && ((m >> h) & 1 == 0 || (m >> h) & 1
                == 1)) by (bit_vector)
                requires
                    h + 1 == i,
                    i <= 62,
            ;
            lemma_signed_round_trip(sum);
        }
        i = i - 1;
        ran = if (m >> i) & 1 != 0 {
            lfsr_step(sum as i64) as u64
        } else {
            sum
        };
    }
    proof {
        assert(m >> 0u32 == m && ran as i64 as u64 == ran) by (bit_vector);
    }
    ran as i64
}

} // verus!
