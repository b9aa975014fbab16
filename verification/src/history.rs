//! Histories of updates, and what verification finds after them.
//!
//! Processes run at their own pace and their updates of a segment arrive in an
//! order that nobody fixes. Exclusive or makes the order irrelevant, which is
//! why replaying the streams one after the other gives the expected values.
use crate::bits::lemma_xor;
use crate::register::stream;
use crate::routing::owner;
use crate::table::lemma_slot_in_table;
use crate::table::{fresh_table, gathered, selects, slot_of, updated};
use crate::verify::{
    differences, gathered_from, lemma_replay_from_start, reaches, segment_after, start_seeds,
    update_seeds,
};
use vstd::prelude::*;

verus! {

/// The segment after the updates by `data`, in that order.
pub open spec fn applied(table: Seq<u64>, data: Seq<u64>, mask: u64) -> Seq<u64>
    decreases data.len(),
{
    if data.len() == 0 {
        table
    } else {
        updated(applied(table, data.drop_last(), mask), data.last(), mask)
    }
}

/// The first `n` data of the stream from `w`.
pub open spec fn stream_data(w: u64, n: nat) -> Seq<u64> {
    Seq::new(n, |k: int| stream(w, (k + 1) as nat))
}

/// Those of the first `n` data of the stream from `w` that process `rank` owns.
pub open spec fn sent_to(
    w: u64,
    n: nat,
    log_table_local: u64,
    num_procs: u64,
    rank: u64,
) -> Seq<u64>
    decreases n,
{
    if n == 0 {
        Seq::empty()
    } else {
        let before = sent_to(w, (n - 1) as nat, log_table_local, num_procs, rank);
        let datum = stream(w, n);
        if owner(datum, log_table_local, num_procs) == rank {
            before.push(datum)
        } else {
            before
        }
    }
}

/// What all the streams that start at `seeds` send to process `rank`, one
/// stream after the other.
pub open spec fn sent_by_all(
    seeds: Seq<u64>,
    n: nat,
    log_table_local: u64,
    num_procs: u64,
    rank: u64,
) -> Seq<u64>
    decreases seeds.len(),
{
    if seeds.len() == 0 {
        Seq::empty()
    } else {
        sent_by_all(seeds.drop_last(), n, log_table_local, num_procs, rank) + sent_to(
            seeds.last(),
            n,
            log_table_local,
            num_procs,
            rank,
        )
    }
}

/// Number of data sent to the first `k` processes.
pub open spec fn sent_below(
    w: u64,
    n: nat,
    log_table_local: u64,
    num_procs: u64,
    k: nat,
) -> nat
    decreases k,
{
    if k == 0 {
        0
    } else {
        sent_below(w, n, log_table_local, num_procs, (k - 1) as nat) + sent_to(
            w,
            n,
            log_table_local,
            num_procs,
            (k - 1) as u64,
        ).len()
    }
}

/// Adds a datum to the word gathered so far, if it selects slot `i`.
spec fn collect(mask: u64, i: int) -> spec_fn(u64, u64) -> u64 {
    |sum: u64, datum: u64|
        sum ^ (if slot_of(datum, mask) == i {
            datum
        } else {
            0
        })
}

/// Exclusive or of the data that select slot `i`.
spec fn slot_sum(data: Seq<u64>, mask: u64, i: int) -> u64 {
    data.fold_left(0u64, collect(mask, i))
}

/// An update made twice is undone.
pub proof fn lemma_update_undone(table: Seq<u64>, datum: u64, mask: u64)
    requires
        slot_of(datum, mask) < table.len(),
    ensures
        updated(updated(table, datum, mask), datum, mask) == table,
{
    let old = table[slot_of(datum, mask)];
    lemma_xor(old, datum, datum);
    lemma_xor(datum, 0, 0);
    lemma_xor(old, 0, 0);
    assert(updated(updated(table, datum, mask), datum, mask) =~= table);
}

/// Two updates may change places.
pub proof fn lemma_updates_commute(table: Seq<u64>, a: u64, b: u64, mask: u64)
    requires
        slot_of(a, mask) < table.len(),
        slot_of(b, mask) < table.len(),
    ensures
        updated(updated(table, a, mask), b, mask) == updated(updated(table, b, mask), a, mask),
{
    let old = table[slot_of(a, mask)];
    lemma_xor(old, a, b);
    lemma_xor(a, b, 0);
    lemma_xor(old, b, a);
    assert(updated(updated(table, a, mask), b, mask) =~= updated(
        updated(table, b, mask),
        a,
        mask,
    ));
}

/// A slot ends as its first value with the data that select it added.
proof fn lemma_applied_slots(table: Seq<u64>, data: Seq<u64>, mask: u64)
    requires
        mask < table.len() <= usize::MAX,
    ensures
        applied(table, data, mask).len() == table.len(),
        forall|i: int|
            0 <= i < table.len() ==> #[trigger] applied(table, data, mask)[i] == table[i]
                ^ slot_sum(data, mask, i),
    decreases data.len(),
{
    reveal_with_fuel(Seq::fold_left, 2);
    if data.len() == 0 {
        assert forall|i: int| 0 <= i < table.len() implies #[trigger] applied(
            table,
            data,
            mask,
        )[i] == table[i] ^ slot_sum(data, mask, i) by {
            lemma_xor(table[i], 0, 0);
        }
    } else {
        let rest = data.drop_last();
        let datum = data.last();
        lemma_applied_slots(table, rest, mask);
        lemma_slot_in_table(datum, mask, table.len() as usize);
        assert forall|i: int| 0 <= i < table.len() implies #[trigger] applied(
            table,
            data,
            mask,
        )[i] == table[i] ^ slot_sum(data, mask, i) by {
            let s = slot_sum(rest, mask, i);
            assert(applied(table, rest, mask)[i] == table[i] ^ s);
            lemma_xor(table[i], s, datum);
            lemma_xor(s, 0, 0);
        }
    }
}

/// The order in which updates arrive does not matter.
pub proof fn lemma_order_is_irrelevant(table: Seq<u64>, a: Seq<u64>, b: Seq<u64>, mask: u64)
    requires
        mask < table.len() <= usize::MAX,
        a.to_multiset() == b.to_multiset(),
    ensures
        applied(table, a, mask) == applied(table, b, mask),
{
    lemma_applied_slots(table, a, mask);
    lemma_applied_slots(table, b, mask);
    assert forall|i: int| 0 <= i < table.len() implies applied(table, a, mask)[i] == applied(
        table,
        b,
        mask,
    )[i] by {
        let f = collect(mask, i);
        assert forall|x: u64, y: u64, v: u64| #[trigger] f(f(v, x), y) == f(f(v, y), x) by {
            lemma_xor(v, x, y);
            lemma_xor(x, y, 0);
            lemma_xor(v, y, x);
            lemma_xor(v, 0, 0);
            lemma_xor(v ^ x, 0, 0);
            lemma_xor(v ^ y, 0, 0);
        }
        vstd::seq_lib::lemma_fold_left_permutation(a, b, f, 0u64);
    }
    assert(applied(table, a, mask) =~= applied(table, b, mask));
}

/// The updates of a stream, made one by one, add to every slot the data that
/// select it.
pub proof fn lemma_stream_updates(table: Seq<u64>, w: u64, n: nat, mask: u64)
    requires
        mask < table.len() <= usize::MAX,
    ensures
        applied(table, stream_data(w, n), mask).len() == table.len(),
        forall|i: int|
            0 <= i < table.len() ==> #[trigger] applied(table, stream_data(w, n), mask)[i]
                == table[i] ^ gathered(w, n, selects(mask, i)),
    decreases n,
{
    let data = stream_data(w, n);
    lemma_applied_slots(table, data, mask);
    assert forall|i: int| 0 <= i < table.len() implies #[trigger] applied(table, data, mask)[i]
        == table[i] ^ gathered(w, n, selects(mask, i)) by {
        lemma_slot_sum_of_data(w, n, mask, i);
    }
}

proof fn lemma_slot_sum_of_data(w: u64, n: nat, mask: u64, i: int)
    ensures
        slot_sum(stream_data(w, n), mask, i) == gathered(w, n, selects(mask, i)),
    decreases n,
{
    reveal_with_fuel(Seq::fold_left, 2);
    if n > 0 {
        lemma_slot_sum_of_data(w, (n - 1) as nat, mask, i);
        assert(stream_data(w, n).drop_last() =~= stream_data(w, (n - 1) as nat));
    }
}

/// Updates one after the other are updates by the joined data.
proof fn lemma_slot_sum_joined(a: Seq<u64>, b: Seq<u64>, mask: u64, i: int)
    ensures
        slot_sum(a + b, mask, i) == slot_sum(a, mask, i) ^ slot_sum(b, mask, i),
    decreases b.len(),
{
    reveal_with_fuel(Seq::fold_left, 2);
    let s = slot_sum(a, mask, i);
    if b.len() == 0 {
        assert(a + b =~= a);
        lemma_xor(s, 0, 0);
    } else {
        let rest = b.drop_last();
        let datum = b.last();
        assert((a + b).drop_last() =~= a + rest);
        assert((a + b).last() == datum);
        lemma_slot_sum_joined(a, rest, mask, i);
        let t = slot_sum(rest, mask, i);
        lemma_xor(s, t, datum);
        lemma_xor(s, t, 0);
        lemma_xor(t, 0, 0);
        lemma_xor(s ^ t, 0, 0);
    }
}

proof fn lemma_slot_sum_of_stream(
    w: u64,
    n: nat,
    log_table_local: u64,
    num_procs: u64,
    rank: u64,
    mask: u64,
    i: int,
)
    ensures
        slot_sum(sent_to(w, n, log_table_local, num_procs, rank), mask, i) == gathered(
            w,
            n,
            reaches(log_table_local, num_procs, rank, mask, i),
        ),
    decreases n,
{
    reveal_with_fuel(Seq::fold_left, 2);
    if n > 0 {
        let before = sent_to(w, (n - 1) as nat, log_table_local, num_procs, rank);
        let datum = stream(w, n);
        lemma_slot_sum_of_stream(w, (n - 1) as nat, log_table_local, num_procs, rank, mask, i);
        lemma_xor(slot_sum(before, mask, i), 0, 0);
        assert(before.push(datum).drop_last() =~= before);
    }
}

proof fn lemma_slot_sum_of_streams(
    seeds: Seq<u64>,
    n: nat,
    log_table_local: u64,
    num_procs: u64,
    rank: u64,
    mask: u64,
    i: int,
)
    ensures
        slot_sum(sent_by_all(seeds, n, log_table_local, num_procs, rank), mask, i)
            == gathered_from(seeds, n, reaches(log_table_local, num_procs, rank, mask, i)),
    decreases seeds.len(),
{
    reveal_with_fuel(Seq::fold_left, 2);
    if seeds.len() > 0 {
        let rest = seeds.drop_last();
        lemma_slot_sum_of_streams(rest, n, log_table_local, num_procs, rank, mask, i);
        lemma_slot_sum_of_stream(seeds.last(), n, log_table_local, num_procs, rank, mask, i);
        lemma_slot_sum_joined(
            sent_by_all(rest, n, log_table_local, num_procs, rank),
            sent_to(seeds.last(), n, log_table_local, num_procs, rank),
            mask,
            i,
        );
    }
}

/// However the updates of all processes arrive, the segment of process `rank`
/// ends as the replay of the streams says.
pub proof fn lemma_arrivals_give_segment(
    seeds: Seq<u64>,
    n: nat,
    local_table_size: u64,
    global_start: u64,
    log_table_local: u64,
    num_procs: u64,
    rank: u64,
    arrivals: Seq<u64>,
)
    requires
        1 <= local_table_size <= usize::MAX,
        arrivals.to_multiset() == sent_by_all(
            seeds,
            n,
            log_table_local,
            num_procs,
            rank,
        ).to_multiset(),
    ensures
        applied(
            fresh_table(local_table_size as nat, global_start),
            arrivals,
            (local_table_size - 1) as u64,
        ) == segment_after(
            seeds,
            n,
            local_table_size,
            global_start,
            log_table_local,
            num_procs,
            rank,
        ),
{
    let table = fresh_table(local_table_size as nat, global_start);
    let mask = (local_table_size - 1) as u64;
    let sent = sent_by_all(seeds, n, log_table_local, num_procs, rank);
    lemma_order_is_irrelevant(table, arrivals, sent, mask);
    lemma_applied_slots(table, sent, mask);
    let segment = segment_after(
        seeds,
        n,
        local_table_size,
        global_start,
        log_table_local,
        num_procs,
        rank,
    );
    assert forall|i: int| 0 <= i < table.len() implies applied(table, sent, mask)[i]
        == segment[i] by {
        lemma_slot_sum_of_streams(seeds, n, log_table_local, num_procs, rank, mask, i);
    }
    assert(applied(table, sent, mask) =~= segment);
}

/// There are no differences exactly where all common places agree.
pub proof fn lemma_no_differences(a: Seq<u64>, b: Seq<u64>)
    ensures
        differences(a, b) == 0 <==> forall|i: int|
            0 <= i < a.len() && i < b.len() ==> #[trigger] a[i] == b[i],
    decreases a.len(),
{
    if a.len() > 0 {
        let rest = a.drop_last();
        lemma_no_differences(rest, b);
        let last = a.len() - 1;
        if forall|i: int| 0 <= i < a.len() && i < b.len() ==> #[trigger] a[i] == b[i] {
            assert forall|i: int| 0 <= i < rest.len() && i < b.len() implies #[trigger] rest[i]
                == b[i] by {
                assert(rest[i] == a[i]);
            }
        }
        if differences(a, b) == 0 {
            assert forall|i: int| 0 <= i < a.len() && i < b.len() implies #[trigger] a[i]
                == b[i] by {
                if i < last {
                    assert(rest[i] == a[i]);
                }
            }
        }
    }
}

/// A slot that does not hold the expected value counts as one error, whatever
/// the other slots hold.
pub proof fn lemma_wrong_slot_counts_once(a: Seq<u64>, b: Seq<u64>, i: int, wrong: u64)
    requires
        0 <= i < a.len(),
        i < b.len(),
        a[i] == b[i],
        wrong != b[i],
    ensures
        differences(a.update(i, wrong), b) == differences(a, b) + 1,
    decreases a.len(),
{
    let last = a.len() - 1;
    let c = a.update(i, wrong);
    if i == last {
        assert(c.drop_last() =~= a.drop_last());
    } else {
        assert(c.drop_last() =~= a.drop_last().update(i, wrong));
        lemma_wrong_slot_counts_once(a.drop_last(), b, i, wrong);
    }
}

/// Verification finds no error after an update phase, however many processes
/// took part and in whatever order their updates arrived.
pub proof fn lemma_update_phase_verifies(
    n: nat,
    local_table_size: u64,
    log_table_local: u64,
    num_procs: u64,
    rank: u64,
    arrivals: Seq<u64>,
)
    requires
        1 <= local_table_size <= usize::MAX,
        rank < num_procs,
        4 * (local_table_size * (num_procs - 1)) <= u64::MAX,
        arrivals.to_multiset() == sent_by_all(
            update_seeds(local_table_size, num_procs as nat),
            n,
            log_table_local,
            num_procs,
            rank,
        ).to_multiset(),
    ensures
        ({
            let global_start = (local_table_size * rank) as u64;
            differences(
                applied(
                    fresh_table(local_table_size as nat, global_start),
                    arrivals,
                    (local_table_size - 1) as u64,
                ),
                segment_after(
                    start_seeds(local_table_size, global_start, rank, num_procs as nat),
                    n,
                    local_table_size,
                    global_start,
                    log_table_local,
                    num_procs,
                    rank,
                ),
            ) == 0
        }),
{
    let global_start = (local_table_size * rank) as u64;
    let seeds = update_seeds(local_table_size, num_procs as nat);
    let (s, r, last) = (local_table_size as int, rank as int, num_procs - 1);
    assert(0 <= s * r <= s * last) by (nonlinear_arith)
        requires
            s >= 0,
            0 <= r <= last,
    ;
    lemma_replay_from_start(local_table_size, rank, num_procs);
    lemma_arrivals_give_segment(
        seeds,
        n,
        local_table_size,
        global_start,
        log_table_local,
        num_procs,
        rank,
        arrivals,
    );
    let segment = segment_after(
        seeds,
        n,
        local_table_size,
        global_start,
        log_table_local,
        num_procs,
        rank,
    );
    lemma_no_differences(segment, segment);
}

/// Verification finds no error after a single-process run.
pub proof fn lemma_single_process_verifies(
    table: Seq<u64>,
    n: nat,
    local_table_size: u64,
    log_table_local: u64,
)
    requires
        1 <= local_table_size,
        log_table_local < 64,
        table.len() == local_table_size,
        forall|i: int|
            0 <= i < table.len() ==> #[trigger] table[i] == fresh_table(
                local_table_size as nat,
                0,
            )[i] ^ gathered(1, n, selects((local_table_size - 1) as u64, i)),
    ensures
        differences(
            table,
            segment_after(
                start_seeds(local_table_size, 0, 0, 1),
                n,
                local_table_size,
                0,
                log_table_local,
                1,
                0,
            ),
        ) == 0,
{
    let mask = (local_table_size - 1) as u64;
    let seeds = start_seeds(local_table_size, 0, 0, 1);
    let segment = segment_after(seeds, n, local_table_size, 0, log_table_local, 1, 0);
    assert forall|i: int| 0 <= i < table.len() && i < segment.len() implies #[trigger] table[i]
        == segment[i] by {
        let chosen = reaches(log_table_local, 1, 0, mask, i);
        reveal_with_fuel(gathered_from, 2);
        assert(seeds.last() == 1);
        lemma_one_owner(n, log_table_local, mask, i);
        lemma_xor(gathered(1, n, chosen), 0, 0);
    }
    lemma_no_differences(table, segment);
}

/// A single process owns every slot.
proof fn lemma_one_owner(n: nat, log_table_local: u64, mask: u64, i: int)
    requires
        log_table_local < 64,
    ensures
        gathered(1, n, reaches(log_table_local, 1, 0, mask, i)) == gathered(
            1,
            n,
            selects(mask, i),
        ),
    decreases n,
{
    if n > 0 {
        lemma_one_owner((n - 1) as nat, log_table_local, mask, i);
        let datum = stream(1, n);
        assert((((datum as i64) >> log_table_local) & 0i64) as u64 == 0) by (bit_vector);
        assert(owner(datum, log_table_local, 1) == 0);
    }
}

/// No update is lost and none is made twice: the data that a stream sends to
/// the processes are as many as the stream has.
pub proof fn lemma_every_update_is_sent_once(
    w: u64,
    n: nat,
    log_table_local: u64,
    num_procs: u64,
)
    requires
        log_table_local < 64,
        num_procs >= 1,
    ensures
        sent_below(w, n, log_table_local, num_procs, num_procs as nat) == n,
    decreases n,
{
    if n == 0 {
        lemma_sent_below_zero(w, log_table_local, num_procs, num_procs as nat);
    } else {
        lemma_every_update_is_sent_once(w, (n - 1) as nat, log_table_local, num_procs);
        lemma_sent_below_next(w, n, log_table_local, num_procs, num_procs as nat);
        crate::routing::lemma_owner_in_range(stream(w, n), log_table_local, num_procs);
    }
}

proof fn lemma_sent_below_zero(w: u64, log_table_local: u64, num_procs: u64, k: nat)
    ensures
        sent_below(w, 0, log_table_local, num_procs, k) == 0,
    decreases k,
{
    if k > 0 {
        lemma_sent_below_zero(w, log_table_local, num_procs, (k - 1) as nat);
    }
}

proof fn lemma_sent_below_next(w: u64, n: nat, log_table_local: u64, num_procs: u64, k: nat)
    requires
        n > 0,
        k <= num_procs,
    ensures
        sent_below(w, n, log_table_local, num_procs, k) == sent_below(
            w,
            (n - 1) as nat,
            log_table_local,
            num_procs,
            k,
        ) + (if owner(stream(w, n), log_table_local, num_procs) < k {
            1nat
        } else {
            0nat
        }),
    decreases k,
{
    if k > 0 {
        lemma_sent_below_next(w, n, log_table_local, num_procs, (k - 1) as nat);
    }
}

} // verus!
