//! Local table segment and its updates.
//!
//! Updates are single-threaded: a process owns one contiguous segment of the
//! global table, and every update is an exclusive or of one slot with the datum
//! that also selects the slot.
use crate::bits::{lemma_mask_bound, lemma_unsigned_round_trip, lemma_xor};
use crate::register::stream;
use crate::rng::lfsr_step;
use vstd::prelude::*;

verus! {

/// The slot that `datum` selects under `mask`.
pub open spec fn slot_of(datum: u64, mask: u64) -> int {
    (datum & mask) as usize as int
}

/// The segment before any update: consecutive numbers from `offset`.
pub open spec fn fresh_table(len: nat, offset: u64) -> Seq<u64> {
    Seq::new(len, |i: int| (i + offset) as u64)
}

/// The segment after the update by `datum`.
pub open spec fn updated(table: Seq<u64>, datum: u64, mask: u64) -> Seq<u64> {
    table.update(slot_of(datum, mask), table[slot_of(datum, mask)] ^ datum)
}

/// Exclusive or of those words among the first `n` that follow `w` in its
/// stream that `chosen` holds of.
pub open spec fn gathered(w: u64, n: nat, chosen: spec_fn(u64) -> bool) -> u64
    decreases n,
{
    if n == 0 {
        0
    } else {
        let datum = stream(w, n);
        gathered(w, (n - 1) as nat, chosen) ^ (if chosen(datum) {
            datum
        } else {
            0
        })
    }
}

/// Holds of the data that select slot `i` under `mask`.
pub open spec fn selects(mask: u64, i: int) -> spec_fn(u64) -> bool {
    |datum: u64| slot_of(datum, mask) == i
}

/// `count` as a number of iterations: a negative count asks for none.
pub open spec fn iterations(count: i64) -> nat {
    if count < 0 {
        0
    } else {
        count as nat
    }
}

/// A count that is not negative asks for that many iterations.
pub proof fn lemma_iterations(count: i64)
    ensures
        count >= 0 ==> iterations(count) == count,
        count < 0 ==> iterations(count) == 0,
{
}

/// What is gathered is the exclusive or of the chosen words, each taken once.
pub proof fn lemma_gathered_words(w: u64, n: nat, chosen: spec_fn(u64) -> bool)
    ensures
        gathered(w, n, chosen) == Seq::new(n, |k: int| stream(w, (k + 1) as nat)).filter(
            chosen,
        ).fold_left(0u64, |a: u64, b: u64| a ^ b),
    decreases n,
{
    let words = Seq::new(n, |k: int| stream(w, (k + 1) as nat));
    let add = |a: u64, b: u64| a ^ b;
    reveal(Seq::filter);
    if n > 0 {
        let m = (n - 1) as nat;
        lemma_gathered_words(w, m, chosen);
        let rest = words.drop_last();
        assert(rest =~= Seq::new(m, |k: int| stream(w, (k + 1) as nat)));
        let kept = rest.filter(chosen);
        lemma_xor(kept.fold_left(0u64, add), 0, 0);
        assert(kept.push(words.last()).drop_last() =~= kept);
    }
}

/// What a longer run gathers is what its two parts gather.
pub proof fn lemma_gathered_in_parts(w: u64, m: nat, n: nat, chosen: spec_fn(u64) -> bool)
    ensures
        gathered(w, m + n, chosen) == gathered(w, m, chosen) ^ gathered(stream(w, m), n, chosen),
    decreases n,
{
    let g = gathered(w, m, chosen);
    if n == 0 {
        lemma_xor(g, 0, 0);
    } else {
        let k = (n - 1) as nat;
        lemma_gathered_in_parts(w, m, k, chosen);
        crate::register::lemma_stream_compose(w, m, n);
        let h = gathered(stream(w, m), k, chosen);
        lemma_xor(g, h, stream(w, m + n));
        lemma_xor(g, h, 0);
    }
}

/// A mask below the length keeps every slot inside the table.
pub proof fn lemma_slot_in_table(datum: u64, mask: u64, len: usize)
    requires
        mask < len,
    ensures
        slot_of(datum, mask) == datum & mask,
        0 <= slot_of(datum, mask) < len,
{
    lemma_mask_bound(datum, mask);
}

/// Initialize the local table segment: `table[i] = i + offset`.
pub fn init_table(table: &mut [u64], offset: u64)
    requires
        old(table)@.len() + offset <= u64::MAX + 1,
    ensures
        final(table)@ == fresh_table(old(table)@.len(), offset),
        final(table)@.len() == old(table)@.len(),
        forall|i: int| 0 <= i < final(table)@.len() ==> #[trigger] final(table)@[i] == i + offset,
{
    let len: usize = table.len();
    let mut i: usize = 0;
    while i < len
        invariant
            i <= len,
            len == table@.len(),
            table@.len() + offset <= u64::MAX + 1,
            forall|j: int| 0 <= j < i ==> table@[j] == j + offset,
        decreases len - i,
    {
        table[i] = i as u64 + offset;
        i = i + 1;
    }
    assert(table@ =~= fresh_table(len as nat, offset));
}

/// Apply a single exclusive-or update to the local table: `datum` holds both the
/// index and the value.
pub fn apply_update(table: &mut [u64], datum: u64, local_mask: u64)
    requires
        slot_of(datum, local_mask) < old(table)@.len(),
    ensures
        final(table)@ == updated(old(table)@, datum, local_mask),
        final(table)@.len() == old(table)@.len(),
        forall|i: int|
            0 <= i < final(table)@.len() ==> #[trigger] final(table)@[i] == (if i == (datum
                & local_mask) as usize {
                old(table)@[i] ^ datum
            } else {
                old(table)@[i]
            }),
{
    let local_idx: usize = (datum & local_mask) as usize;
    table[local_idx] = table[local_idx] ^ datum;
}

/// Apply the `count` updates that follow `ran` in its stream, and return the
/// state reached.
pub fn apply_stream(table: &mut [u64], ran: i64, count: i64, local_mask: u64) -> (last: i64)
    requires
        local_mask < old(table)@.len(),
    ensures
        last == stream(ran as u64, iterations(count)) as i64,
        last as u64 == stream(ran as u64, iterations(count)),
        final(table)@.len() == old(table)@.len(),
        forall|i: int|
            0 <= i < final(table)@.len() ==> #[trigger] final(table)@[i] == old(table)@[i]
                ^ gathered(ran as u64, iterations(count), selects(local_mask, i)),
        count >= 0 ==> last as u64 == stream(ran as u64, count as nat),
        count >= 0 ==> final(table)@ == Seq::new(
            count as nat,
            |k: int| stream(ran as u64, (k + 1) as nat),
        ).fold_left(
            old(table)@,
            |t: Seq<u64>, d: u64|
                t.update((d & local_mask) as int, t[(d & local_mask) as int] ^ d),
        ),
        count < 0 ==> last == ran && final(table)@ == old(table)@,
{
    let mut state: i64 = ran;
    let mut k: i64 = 0;
    let len: usize = table.len();
    proof {
        assert forall|i: int| 0 <= i < len implies #[trigger] table@[i] == old(table)@[i] ^ 0 by {
            lemma_xor(table@[i], 0, 0);
        }
        lemma_unsigned_round_trip(ran);
    }
    let ghost data = |k: int| stream(ran as u64, (k + 1) as nat);
    let ghost place = |t: Seq<u64>, d: u64|
        t.update((d & local_mask) as int, t[(d & local_mask) as int] ^ d);
    assert(Seq::new(0, data).fold_left(old(table)@, place) == table@);
    while k < count
        invariant
            0 <= k,
            k <= iterations(count),
            local_mask < len,
            len == table@.len(),
            table@.len() == old(table)@.len(),
            state as u64 == stream(ran as u64, k as nat),
            data == |k: int| stream(ran as u64, (k + 1) as nat),
            place == |t: Seq<u64>, d: u64|
                t.update((d & local_mask) as int, t[(d & local_mask) as int] ^ d),
            table@ == Seq::new(k as nat, data).fold_left(old(table)@, place),
            forall|i: int|
                0 <= i < len ==> #[trigger] table@[i] == old(table)@[i] ^ gathered(
                    ran as u64,
                    k as nat,
                    selects(local_mask, i),
                ),
        decreases count - k,
    {
        let ghost before = table@;
        state = lfsr_step(state);
        let datum: u64 = state as u64;
        proof {
            lemma_slot_in_table(datum, local_mask, len);
        }
        apply_update(table, datum, local_mask);
        k = k + 1;
        proof {
            let longer = Seq::new(k as nat, data);
            assert(longer.drop_last() =~= Seq::new((k - 1) as nat, data));
            assert(longer.last() == datum);
            assert(longer.fold_left(old(table)@, place) == place(before, datum));
            assert forall|i: int| 0 <= i < len implies #[trigger] table@[i] == old(table)@[i]
                ^ gathered(ran as u64, k as nat, selects(local_mask, i)) by {
                let g = gathered(ran as u64, (k - 1) as nat, selects(local_mask, i));
                assert(before[i] == old(table)@[i] ^ g);
                lemma_xor(old(table)@[i], g, datum);
                lemma_xor(g, 0, 0);
            }
        }
    }
    proof {
        lemma_unsigned_round_trip(state);
    }
    state
}

} // verus!
