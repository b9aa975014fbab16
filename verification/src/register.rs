//! Mathematical model of the shift register.
//!
//! A 64-bit word stands for a polynomial over the two-element field: bit `j` is
//! the coefficient of `x^j`. One step of the register multiplies by `x` and
//! reduces modulo `x^64 + x^2 + x + 1`. The state after `n` steps from the word
//! 1 is therefore the residue of `x^n`, and squaring that residue doubles `n`.
use crate::bits::{bit, low_places};
use crate::bits::{lemma_bit, lemma_low_places, lemma_xor};
use vstd::prelude::*;

verus! {

/// Number of steps after which every word recurs: `(2^63 - 1) / 7`.
pub const PERIOD: u64 = 1317624576693539401;

/// The word after one step: multiplication by `x`, where an outgoing `x^64` is
/// fed back as `x^2 + x + 1`.
pub open spec fn step(w: u64) -> u64 {
    (w << 1) ^ (if w >> 63 == 1 {
        7u64
    } else {
        0u64
    })
}

/// The word after `n` steps from `w`.
pub open spec fn stream(w: u64, n: nat) -> u64
    decreases n,
{
    if n == 0 {
        w
    } else {
        step(stream(w, (n - 1) as nat))
    }
}

/// Sum over the coefficients below `x^k` of `a` of the residues of `x^(2j)`.
pub open spec fn square_below(a: u64, k: nat) -> u64
    decreases k,
{
    if k == 0 {
        0
    } else {
        let j = (k - 1) as nat;
        square_below(a, j) ^ (if bit(a, j) {
            stream(1, 2 * j)
        } else {
            0u64
        })
    }
}

/// The square of the polynomial `a`, reduced: over the two-element field the
/// cross terms cancel, so each `x^j` contributes `x^(2j)`.
pub open spec fn square(a: u64) -> u64 {
    square_below(a, 64)
}

/// A step adds up: the step of a sum is the sum of the steps.
pub proof fn lemma_step_linear(a: u64, b: u64)
    ensures
        step(a ^ b) == step(a) ^ step(b),
{
    assert(step(a ^ b) == step(a) ^ step(b)) by (bit_vector);
}

/// The register, bit by bit: every bit moves up by one place, and the bit that
/// leaves at the top is added to the three lowest places.
pub proof fn lemma_step_bits(w: u64, j: nat)
    requires
        j < 64,
    ensures
        bit(step(w), j) == ((j > 0 && bit(w, (j - 1) as nat)) != (j <= 2 && bit(w, 63))),
{
    let f: u64 = if w >> 63 == 1 {
        7
    } else {
        0
    };
    lemma_bit(w << 1, f, j);
    lemma_bit(w, f, j);
    lemma_top_bit(w);
}

proof fn lemma_top_bit(w: u64)
    ensures
        bit(w, 63) == (w >> 63 == 1),
{
    assert(((w >> 63) & 1 == 1) == (w >> 63 == 1)) by (bit_vector);
}

/// The register, as arithmetic: a word below `2^63` is doubled, and a larger one
/// loses its top bit, is doubled and has 7 added without carry.
pub proof fn lemma_step_doubles(w: u64)
    ensures
        w < 0x8000_0000_0000_0000 ==> step(w) == 2 * w,
        w >= 0x8000_0000_0000_0000 ==> step(w) == ((2 * (w - 0x8000_0000_0000_0000)) as u64) ^ 7,
{
    let s = step(w);
    assert((w < 0x8000_0000_0000_0000 ==> s == 2 * w) && (w >= 0x8000_0000_0000_0000 ==> s == ((2
        * (w - 0x8000_0000_0000_0000)) as u64) ^ 7)) by (bit_vector)
        requires
            s == step(w),
    ;
}

/// No two words step to the same word.
pub proof fn lemma_step_injective(a: u64, b: u64)
    requires
        step(a) == step(b),
    ensures
        a == b,
{
    assert(step(a) == step(b) ==> a == b) by (bit_vector);
}

/// No steps leave the word as it is, one step is a step of the register, and one
/// step more is one step of the word reached.
pub proof fn lemma_stream_counts_steps(w: u64, n: nat)
    ensures
        stream(w, 0) == w,
        stream(w, 1) == step(w),
        stream(w, n + 1) == step(stream(w, n)),
        stream(w, n + 1) == stream(step(w), n),
{
    reveal_with_fuel(stream, 2);
    lemma_stream_compose(w, 1, n);
}

/// Steps compose: `m` steps and then `n` more are `m + n` steps.
pub proof fn lemma_stream_compose(w: u64, m: nat, n: nat)
    ensures
        stream(stream(w, m), n) == stream(w, m + n),
    decreases n,
{
    if n > 0 {
        lemma_stream_compose(w, m, (n - 1) as nat);
    }
}

/// Any number of steps adds up, as one step does.
pub proof fn lemma_stream_linear(a: u64, b: u64, n: nat)
    ensures
        stream(a ^ b, n) == stream(a, n) ^ stream(b, n),
    decreases n,
{
    if n > 0 {
        let m = (n - 1) as nat;
        lemma_stream_linear(a, b, m);
        lemma_step_linear(stream(a, m), stream(b, m));
    }
}

/// From a word other than 0 the register never reaches 0.
pub proof fn lemma_stream_nonzero(w: u64, n: nat)
    requires
        w != 0,
    ensures
        stream(w, n) != 0,
    decreases n,
{
    if n > 0 {
        let v = stream(w, (n - 1) as nat);
        lemma_stream_nonzero(w, (n - 1) as nat);
        assert(v != 0 ==> step(v) != 0) by (bit_vector);
    }
}

/// The residue of `x^n` as a word, for the powers that need at most one reduction.
spec fn small_power(n: u64) -> u64 {
    if n < 64 {
        1u64 << n
    } else {
        7u64 << ((n - 64) as u64)
    }
}

proof fn lemma_small_powers(n: nat)
    requires
        n <= 125,
    ensures
        stream(1, n) == small_power(n as u64),
    decreases n,
{
    let m = (n - 1) as u64;
    assert(small_power(0) == 1 && (m < 125 ==> step(small_power(m)) == small_power((m + 1) as u64)))
        by (bit_vector);
    if n > 0 {
        lemma_small_powers((n - 1) as nat);
    }
}

/// The residues of `x^126` and `x^128`.
proof fn lemma_wrapped_powers()
    ensures
        stream(1, 126) == 0xC000_0000_0000_0007,
        stream(1, 128) == 0x15,
{
    lemma_small_powers(125);
    reveal_with_fuel(stream, 4);
    assert(step(small_power(125)) == 0xC000_0000_0000_0007 && step(step(0xC000_0000_0000_0007))
        == 0x15) by (bit_vector);
}

/// Squaring adds up.
proof fn lemma_square_linear(a: u64, b: u64, k: nat)
    requires
        k <= 64,
    ensures
        square_below(a ^ b, k) == square_below(a, k) ^ square_below(b, k),
    decreases k,
{
    if k == 0 {
        lemma_xor(0, 0, 0);
    } else {
        let j = (k - 1) as nat;
        lemma_square_linear(a, b, j);
        lemma_bit(a, b, j);
        let (p, q, t) = (square_below(a, j), square_below(b, j), stream(1, 2 * j));
        lemma_xor(p, q, t);
        lemma_xor(p, t, q);
        lemma_xor(q, t, t);
        lemma_xor(t, q ^ t, 0);
        lemma_xor(p, t, q ^ t);
        lemma_xor(p ^ q, t, 0);
    }
}

/// Two steps add up.
proof fn lemma_two_steps_linear(a: u64, b: u64)
    ensures
        step(step(a ^ b)) == step(step(a)) ^ step(step(b)),
        step(step(0)) == 0,
{
    lemma_step_linear(a, b);
    lemma_step_linear(step(a), step(b));
    lemma_step_linear(0, 0);
    lemma_xor(0, 0, 0);
    lemma_xor(step(0), 0, 0);
}

/// Multiplying by `x` before the sum of squares is multiplying by `x^2` after it.
proof fn lemma_square_shifted(a: u64, k: nat)
    requires
        k <= 63,
    ensures
        square_below(a << 1, k + 1) == step(step(square_below(a, k))),
    decreases k,
{
    lemma_bit(a, 0, k);
    if k == 0 {
        reveal_with_fuel(square_below, 2);
        lemma_xor(0, 0, 0);
        lemma_two_steps_linear(0, 0);
    } else {
        let j = (k - 1) as nat;
        lemma_square_shifted(a, j);
        let (p, t) = (square_below(a, j), stream(1, 2 * j));
        reveal_with_fuel(stream, 3);
        assert(stream(1, 2 * k) == step(step(t)));
        lemma_two_steps_linear(p, t);
        lemma_xor(p, 0, 0);
        lemma_xor(step(step(p)), 0, 0);
    }
}

/// The squares of 0, of 1 and of `x^2 + x + 1`.
proof fn lemma_square_small(k: nat)
    requires
        k <= 64,
    ensures
        square_below(0, k) == 0,
        k >= 1 ==> square_below(1, k) == 1,
        k >= 3 ==> square_below(7, k) == 0x15,
    decreases k,
{
    if k > 0 {
        lemma_square_small((k - 1) as nat);
        lemma_bit(0, 0, (k - 1) as nat);
        lemma_xor(0, 0, 0);
        lemma_xor(1, 0, 0);
        lemma_xor(0x15, 0, 0);
        if k == 1 {
            reveal_with_fuel(square_below, 2);
        }
        if k == 3 {
            reveal_with_fuel(square_below, 4);
            reveal_with_fuel(stream, 5);
            lemma_bit(0, 0, 0);
            lemma_bit(0, 0, 1);
            assert((1u64 ^ step(step(1))) ^ step(step(step(step(1)))) == 0x15) by (bit_vector);
        }
    }
}

/// The square of a multiple of `x` is the square times `x^2`.
proof fn lemma_square_step(a: u64)
    ensures
        square(step(a)) == step(step(square(a))),
{
    let f: u64 = if a >> 63 == 1 {
        7
    } else {
        0
    };
    lemma_square_linear(a << 1, f, 64);
    lemma_square_shifted(a, 63);
    lemma_square_small(64);
    lemma_wrapped_powers();
    lemma_top_bit(a);
    reveal_with_fuel(stream, 3);
    let p = square_below(a, 63);
    lemma_two_steps_linear(p, stream(1, 126));
    lemma_xor(p, 0, 0);
    lemma_xor(step(step(p)), 0, 0);
}

/// Squaring doubles the number of steps from 1.
pub proof fn lemma_square_doubles(n: nat)
    ensures
        square(stream(1, n)) == stream(1, 2 * n),
    decreases n,
{
    if n == 0 {
        lemma_square_small(64);
    } else {
        let m = (n - 1) as nat;
        lemma_square_doubles(m);
        lemma_square_step(stream(1, m));
        reveal_with_fuel(stream, 3);
        assert(stream(1, 2 * n) == step(step(stream(1, 2 * m))));
    }
}

/// The low 32 bits of `v`, bit `j` moved to place `2j`.
spec fn spread(v: u64) -> u64 {
    let a = v & 0xffff_ffff;
    let b = (a | (a << 16)) & 0x0000_ffff_0000_ffff;
    let c = (b | (b << 8)) & 0x00ff_00ff_00ff_00ff;
    let d = (c | (c << 4)) & 0x0f0f_0f0f_0f0f_0f0f;
    let e = (d | (d << 2)) & 0x3333_3333_3333_3333;
    (e | (e << 1)) & 0x5555_5555_5555_5555
}

/// The square in closed form: the high half, spread out, is multiplied by
/// `x^64 = x^2 + x + 1`, and the one place that leaves again is fed back.
spec fn closed_square(a: u64) -> u64 {
    let s = spread(a >> 32);
    spread(a) ^ s ^ (s << 1) ^ (s << 2) ^ (if (s >> 62) & 1 == 1 {
        7u64
    } else {
        0u64
    })
}

proof fn lemma_closed_square(a: u64, k: nat)
    requires
        k <= 64,
    ensures
        square_below(a, k) == closed_square(low_places(a, k)),
    decreases k,
{
    if k == 0 {
        lemma_low_places(a, 0);
        assert(closed_square(0) == 0) by (bit_vector);
    } else {
        let j = (k - 1) as nat;
        let i = j as u64;
        lemma_closed_square(a, j);
        lemma_low_places(a, j);
        let t = stream(1, 2 * j);
        if j < 63 {
            lemma_small_powers(2 * j);
        } else {
            lemma_wrapped_powers();
        }
        let low = low_places(a, j);
        assert(closed_square(low ^ (1u64 << i)) == closed_square(low) ^ t && closed_square(low ^ 0)
            == closed_square(low) ^ 0) by (bit_vector)
            requires
                i < 64,
                i < 63 ==> t == small_power((2 * i) as u64),
                i == 63 ==> t == 0xC000_0000_0000_0007,
        ;
    }
}

/// Three squarings and a step: from `x^n` to `x^(8n + 1)`.
spec fn eightfold(a: u64) -> u64 {
    step(closed_square(closed_square(closed_square(a))))
}

proof fn lemma_eightfold(n: nat)
    ensures
        stream(1, 8 * n + 1) == eightfold(stream(1, n)),
{
    lemma_square_doubles(n);
    lemma_square_doubles(2 * n);
    lemma_square_doubles(4 * n);
    lemma_closed_square(stream(1, n), 64);
    lemma_closed_square(stream(1, 2 * n), 64);
    lemma_closed_square(stream(1, 4 * n), 64);
}

/// `PERIOD` steps lead from 1 back to 1. Written in base eight, `PERIOD` is the
/// digit 1 twenty-one times, so twenty eightfold moves from `x` reach it.
proof fn lemma_one_recurs()
    ensures
        stream(1, PERIOD as nat) == 1,
{
    assert({
        &&& eightfold(0x0000000000000002) == 0x0000000000000200
        &&& eightfold(0x0000000000000200) == 0x0000000000000e00
        &&& eightfold(0x0000000000000e00) == 0x000000000e0e0e00
        &&& eightfold(0x000000000e0e0e00) == 0x00000000f2f2f200
        &&& eightfold(0x00000000f2f2f200) == 0xf2f2f2f20000f200
        &&& eightfold(0xf2f2f2f20000f200) == 0x010101fe00fffcfd
        &&& eightfold(0x010101fe00fffcfd) == 0x060606060606f5f4
        &&& eightfold(0x060606060606f5f4) == 0x0c0c0c0cffff0c0e
        &&& eightfold(0x0c0c0c0cffff0c0e) == 0xfcfcfc03ff00fefc
        &&& eightfold(0xfcfcfc03ff00fefc) == 0xf5f5f5f5f50afa07
        &&& eightfold(0xf5f5f5f5f50afa07) == 0xd7d7d728db24dbd9
        &&& eightfold(0xd7d7d728db24dbd9) == 0xf50af50a0505f5fb
        &&& eightfold(0xf50af50a0505f5fb) == 0x8181817e7f807d83
        &&& eightfold(0x8181817e7f807d83) == 0xf8f8f8f8f8f809fb
        &&& eightfold(0xf8f8f8f8f8f809fb) == 0xf1f1f1f1000000f1
        &&& eightfold(0xf1f1f1f1000000f1) == 0x0d0d0df20000fd0f
        &&& eightfold(0x0d0d0df20000fd0f) == 0x2e2e2ed123dcddd0
        &&& eightfold(0x2e2e2ed123dcddd0) == 0x06f906f90b0b06f4
        &&& eightfold(0x06f906f90b0b06f4) == 0x8080808081818082
        &&& eightfold(0x8080808081818082) == 0x0000000000000001
    }) by (bit_vector);
    reveal_with_fuel(stream, 2);
    assert(step(1) == 2) by (bit_vector);
    lemma_eightfold(1);
    lemma_eightfold(9);
    lemma_eightfold(73);
    lemma_eightfold(585);
    lemma_eightfold(4681);
    lemma_eightfold(37449);
    lemma_eightfold(299593);
    lemma_eightfold(2396745);
    lemma_eightfold(19173961);
    lemma_eightfold(153391689);
    lemma_eightfold(1227133513);
    lemma_eightfold(9817068105);
    lemma_eightfold(78536544841);
    lemma_eightfold(628292358729);
    lemma_eightfold(5026338869833);
    lemma_eightfold(40210710958665);
    lemma_eightfold(321685687669321);
    lemma_eightfold(2573485501354569);
    lemma_eightfold(20587884010836553);
    lemma_eightfold(164703072086692425);
}

proof fn lemma_low_places_recur(w: u64, k: nat)
    requires
        k <= 64,
    ensures
        stream(low_places(w, k), PERIOD as nat) == low_places(w, k),
    decreases k,
{
    if k == 0 {
        lemma_low_places(w, 0);
        lemma_stream_linear(0, 0, PERIOD as nat);
        lemma_xor(0, 0, 0);
        lemma_xor(stream(0, PERIOD as nat), 0, 0);
    } else {
        let j = (k - 1) as nat;
        lemma_low_places_recur(w, j);
        lemma_low_places(w, j);
        let low = low_places(w, j);
        lemma_xor(low, 0, 0);
        if bit(w, j) {
            lemma_small_powers(j);
            lemma_one_recurs();
            lemma_stream_compose(1, j, PERIOD as nat);
            lemma_stream_compose(1, PERIOD as nat, j);
            lemma_stream_linear(low, 1u64 << (j as u64), PERIOD as nat);
        }
    }
}

/// Every word recurs after `PERIOD` steps.
pub proof fn lemma_period(w: u64)
    ensures
        stream(w, PERIOD as nat) == w,
{
    lemma_low_places_recur(w, 64);
}

/// Only the number of steps modulo `PERIOD` matters.
pub proof fn lemma_stream_modulo_period(w: u64, n: nat)
    ensures
        stream(w, n) == stream(w, n % (PERIOD as nat)),
    decreases n,
{
    if n >= PERIOD {
        let m = (n - PERIOD) as nat;
        lemma_stream_modulo_period(w, m);
        lemma_stream_compose(w, PERIOD as nat, m);
        lemma_period(w);
        assert(m % (PERIOD as nat) == n % (PERIOD as nat)) by (nonlinear_arith)
            requires
                m == n - PERIOD,
        ;
    }
}

} // verus!
