//! Verification after the update phase: the streams are replayed to find the
//! value that every slot should hold, and the table is compared with it.
use crate::bits::lemma_xor;
use crate::register::stream;
use crate::rng::{lfsr_step, starts};
use crate::routing::{owner, target_process};
use crate::table::{gathered, iterations, slot_of};
use crate::table::{lemma_gathered_words, lemma_slot_in_table};
use vstd::prelude::*;

verus! {

/// Holds of the data that select slot `i` of process `rank`.
pub open spec fn reaches(
    log_table_local: u64,
    num_procs: u64,
    rank: u64,
    local_mask: u64,
    i: int,
) -> spec_fn(u64) -> bool {
    |datum: u64|
        owner(datum, log_table_local, num_procs) == rank && slot_of(datum, local_mask) == i
}

/// Position in the stream from which process `p` starts its updates, as process
/// `my_proc` finds it from its own first index: four for every slot before the
/// segment of `p`.
pub open spec fn start_position(
    local_table_size: u64,
    global_start: u64,
    my_proc: u64,
    p: u64,
) -> u64 {
    global_start.wrapping_sub(local_table_size.wrapping_mul(my_proc)).wrapping_add(
        local_table_size.wrapping_mul(p),
    ).wrapping_mul(4)
}

/// Exclusive or of the data that `chosen` holds of among the first `n` of each
/// of the streams that start at `seeds`.
pub open spec fn gathered_from(seeds: Seq<u64>, n: nat, chosen: spec_fn(u64) -> bool) -> u64
    decreases seeds.len(),
{
    if seeds.len() == 0 {
        0
    } else {
        gathered_from(seeds.drop_last(), n, chosen) ^ gathered(seeds.last(), n, chosen)
    }
}

/// The states from which the streams of the first `k` processes are replayed.
pub open spec fn start_seeds(
    local_table_size: u64,
    global_start: u64,
    my_proc: u64,
    k: nat,
) -> Seq<u64> {
    Seq::new(
        k,
        |p: int|
            stream(1, start_position(local_table_size, global_start, my_proc, p as u64) as nat),
    )
}

/// The states from which the first `k` processes start their updates, when each
/// holds `local_table_size` slots.
pub open spec fn update_seeds(local_table_size: u64, k: nat) -> Seq<u64> {
    Seq::new(k, |p: int| stream(1, (4 * (local_table_size * p)) as nat))
}

/// The segment of process `rank` after each of the streams that start at
/// `seeds` has made `n` updates.
pub open spec fn segment_after(
    seeds: Seq<u64>,
    n: nat,
    local_table_size: u64,
    global_start: u64,
    log_table_local: u64,
    num_procs: u64,
    rank: u64,
) -> Seq<u64> {
    Seq::new(
        local_table_size as nat,
        |i: int|
            ((global_start + i) as u64) ^ gathered_from(
                seeds,
                n,
                reaches(log_table_local, num_procs, rank, (local_table_size - 1) as u64, i),
            ),
    )
}

/// Number of places, among those that both sequences have, where they differ.
pub open spec fn differences(a: Seq<u64>, b: Seq<u64>) -> nat
    decreases a.len(),
{
    if a.len() == 0 {
        0
    } else {
        let last = a.len() - 1;
        differences(a.drop_last(), b) + (if last < b.len() && a[last] != b[last] {
            1nat
        } else {
            0nat
        })
    }
}

/// Verify the local table segment, and return the number of slots that do not
/// hold the expected value.
///
/// * `table` - the local table to verify
/// * `local_table_size` - size of the local table
/// * `global_start` - global index of the first slot of this process
/// * `num_procs` - number of processes
/// * `log_num_procs` - log2 of the number of processes
/// * `log_table_size` - log2 of the size of the whole table
/// * `proc_num_updates` - number of updates made by each process
/// * `my_proc` - rank of this process
///
/// The stream of every process is replayed from where that process started its
/// updates.
pub fn verify_table(
    table: &[u64],
    local_table_size: u64,
    global_start: u64,
    num_procs: u64,
    log_num_procs: u64,
    log_table_size: u64,
    proc_num_updates: i64,
    my_proc: u64,
) -> (errors: u64)
    requires
        local_table_size >= 1,
        num_procs >= 1,
        log_num_procs <= log_table_size,
        log_table_size - log_num_procs < 64 || proc_num_updates <= 0,
        global_start + local_table_size <= u64::MAX + 1,
        local_table_size * 8 <= isize::MAX,
    ensures
        errors == differences(
            table@,
            segment_after(
                start_seeds(local_table_size, global_start, my_proc, num_procs as nat),
                iterations(proc_num_updates),
                local_table_size,
                global_start,
                (log_table_size - log_num_procs) as u64,
                num_procs,
                my_proc,
            ),
        ),
        proc_num_updates >= 0 ==> errors == differences(
            table@,
            segment_after(
                start_seeds(local_table_size, global_start, my_proc, num_procs as nat),
                proc_num_updates as nat,
                local_table_size,
                global_start,
                (log_table_size - log_num_procs) as u64,
                num_procs,
                my_proc,
            ),
        ),
        proc_num_updates <= 0 ==> errors == Seq::new(table@.len(), |i: int| i).filter(
            |i: int| i < local_table_size && table@[i] != global_start + i,
        ).len(),
{
    let log_table_local: u64 = log_table_size - log_num_procs;
    let ghost n = iterations(proc_num_updates);
    let mut expected: Vec<u64> = untouched_segment(
        local_table_size,
        global_start,
        Ghost(n),
        log_table_local,
        num_procs,
        my_proc,
    );
    let origin: u64 = global_start.wrapping_sub(local_table_size.wrapping_mul(my_proc));
    assert(start_seeds(local_table_size, global_start, my_proc, 0) =~= Seq::empty());
    let mut proc_rank: u64 = 0;
    while proc_rank < num_procs
        invariant
            proc_rank <= num_procs,
            num_procs >= 1,
            log_table_local < 64 || proc_num_updates <= 0,
            1 <= local_table_size <= usize::MAX,
            origin == global_start.wrapping_sub(local_table_size.wrapping_mul(my_proc)),
            n == iterations(proc_num_updates),
            expected@ == segment_after(
                start_seeds(local_table_size, global_start, my_proc, proc_rank as nat),
                n,
                local_table_size,
                global_start,
                log_table_local,
                num_procs,
                my_proc,
            ),
        decreases num_procs - proc_rank,
    {
        let ghost replayed = start_seeds(
            local_table_size,
            global_start,
            my_proc,
            proc_rank as nat,
        );
        let first_index: u64 = origin.wrapping_add(local_table_size.wrapping_mul(proc_rank));
        let seed: i64 = starts(first_index.wrapping_mul(4));
        replay(
            &mut expected,
            Ghost(replayed),
            seed,
            proc_num_updates,
            local_table_size,
            global_start,
            log_table_local,
            num_procs,
            my_proc,
        );
        proc_rank = proc_rank + 1;
        assert(start_seeds(local_table_size, global_start, my_proc, proc_rank as nat)
            =~= replayed.push(seed as u64));
    }
    proof {
        lemma_differences_counted(table@, expected@);
        if proc_num_updates <= 0 {
            lemma_expected_without_updates(
                start_seeds(local_table_size, global_start, my_proc, num_procs as nat),
                local_table_size,
                global_start,
                log_table_local,
                num_procs,
                my_proc,
            );
            let wrong = |i: int| i < local_table_size && table@[i] != global_start + i;
            let differs = |i: int| i < expected@.len() && table@[i] != expected@[i];
            lemma_filter_same(table@.len(), wrong, differs);
        }
    }
    count_differences(table, &expected)
}

/// The segment before any stream has been replayed.
fn untouched_segment(
    local_table_size: u64,
    global_start: u64,
    Ghost(n): Ghost<nat>,
    log_table_local: u64,
    num_procs: u64,
    my_proc: u64,
) -> (expected: Vec<u64>)
    requires
        1 <= local_table_size,
        local_table_size * 8 <= isize::MAX,
        global_start + local_table_size <= u64::MAX + 1,
    ensures
        expected@ == segment_after(
            Seq::empty(),
            n,
            local_table_size,
            global_start,
            log_table_local,
            num_procs,
            my_proc,
        ),
{
    let mut expected: Vec<u64> = Vec::with_capacity(local_table_size as usize);
    let mut i: u64 = 0;
    while i < local_table_size
        invariant
            i <= local_table_size,
            expected@.len() == i,
            global_start + local_table_size <= u64::MAX + 1,
            forall|j: int| 0 <= j < i ==> expected@[j] == global_start + j,
        decreases local_table_size - i,
    {
        expected.push(global_start + i);
        i = i + 1;
    }
    let ghost segment = segment_after(
        Seq::empty(),
        n,
        local_table_size,
        global_start,
        log_table_local,
        num_procs,
        my_proc,
    );
    proof {
        assert forall|j: int| 0 <= j < segment.len() implies #[trigger] expected@[j]
            == segment[j] by {
            lemma_xor(expected@[j], 0, 0);
        }
        assert(expected@ =~= segment);
    }
    expected
}

/// Replay the stream from `seed` onto a segment on which the streams from
/// `replayed` have been replayed.
fn replay(
    expected: &mut Vec<u64>,
    Ghost(replayed): Ghost<Seq<u64>>,
    seed: i64,
    proc_num_updates: i64,
    local_table_size: u64,
    global_start: u64,
    log_table_local: u64,
    num_procs: u64,
    my_proc: u64,
)
    requires
        1 <= local_table_size <= usize::MAX,
        num_procs >= 1,
        log_table_local < 64 || proc_num_updates <= 0,
        old(expected)@ == segment_after(
            replayed,
            iterations(proc_num_updates),
            local_table_size,
            global_start,
            log_table_local,
            num_procs,
            my_proc,
        ),
    ensures
        final(expected)@ == segment_after(
            replayed.push(seed as u64),
            iterations(proc_num_updates),
            local_table_size,
            global_start,
            log_table_local,
            num_procs,
            my_proc,
        ),
{
    let local_mask: u64 = local_table_size - 1;
    let size: usize = local_table_size as usize;
    let ghost n = iterations(proc_num_updates);
    let ghost chosen = |i: int| reaches(log_table_local, num_procs, my_proc, local_mask, i);
    let ghost at_start = expected@;
    let ghost first = seed as u64;
    let mut ran: i64 = seed;
    proof {
        assert forall|j: int| 0 <= j < size implies #[trigger] expected@[j] == at_start[j]
            ^ gathered(first, 0, chosen(j)) by {
            lemma_xor(expected@[j], 0, 0);
        }
    }
    let mut k: i64 = 0;
    while k < proc_num_updates
        invariant
            0 <= k,
            k <= iterations(proc_num_updates),
            num_procs >= 1,
            log_table_local < 64 || proc_num_updates <= 0,
            local_mask < size,
            expected@.len() == size,
            ran as u64 == stream(first, k as nat),
            chosen == |i: int| reaches(log_table_local, num_procs, my_proc, local_mask, i),
            forall|j: int|
                0 <= j < size ==> #[trigger] expected@[j] == at_start[j] ^ gathered(
                    first,
                    k as nat,
                    chosen(j),
                ),
        decreases proc_num_updates - k,
    {
        let ghost before = expected@;
        ran = lfsr_step(ran);
        let datum: u64 = ran as u64;
        let remote_proc: u64 = target_process(ran, log_table_local, num_procs);
        proof {
            lemma_slot_in_table(datum, local_mask, size);
        }
        if remote_proc == my_proc {
            let index: usize = (datum & local_mask) as usize;
            expected[index] = expected[index] ^ datum;
        }
        k = k + 1;
        proof {
            assert forall|j: int| 0 <= j < size implies #[trigger] expected@[j] == at_start[j]
                ^ gathered(first, k as nat, chosen(j)) by {
                let g = gathered(first, (k - 1) as nat, chosen(j));
                assert(before[j] == at_start[j] ^ g);
                lemma_xor(at_start[j], g, datum);
                lemma_xor(g, 0, 0);
            }
        }
    }
    proof {
        let seeds = replayed.push(first);
        assert(seeds.drop_last() =~= replayed);
        let segment = segment_after(
            seeds,
            n,
            local_table_size,
            global_start,
            log_table_local,
            num_procs,
            my_proc,
        );
        assert forall|j: int| 0 <= j < size implies #[trigger] expected@[j] == segment[j] by {
            let g = gathered_from(replayed, n, chosen(j));
            assert(at_start[j] == ((global_start + j) as u64) ^ g);
            lemma_xor((global_start + j) as u64, g, gathered(first, n, chosen(j)));
        }
        assert(expected@ =~= segment);
    }
}

/// Number of the slots, among those that both hold, where the two differ.
fn count_differences(table: &[u64], expected: &Vec<u64>) -> (errors: u64)
    ensures
        errors == differences(table@, expected@),
{
    let size: usize = expected.len();
    let mut errors: u64 = 0;
    let len: usize = table.len();
    let mut t: usize = 0;
    while t < len && t < size
        invariant
            t <= len,
            t <= size,
            len == table@.len(),
            size == expected@.len(),
            errors <= t,
            errors == differences(table@.take(t as int), expected@),
        decreases len - t,
    {
        if table[t] != expected[t] {
            errors = errors + 1;
        }
        assert(table@.take(t + 1).drop_last() =~= table@.take(t as int));
        t = t + 1;
    }
    proof {
        lemma_differences_of_prefix(table@, expected@, t as nat);
    }
    errors
}

proof fn lemma_filter_same(n: nat, p: spec_fn(int) -> bool, q: spec_fn(int) -> bool)
    requires
        forall|i: int| 0 <= i < n ==> #[trigger] p(i) == q(i),
    ensures
        Seq::new(n, |i: int| i).filter(p) == Seq::new(n, |i: int| i).filter(q),
    decreases n,
{
    reveal(Seq::filter);
    if n > 0 {
        lemma_filter_same((n - 1) as nat, p, q);
        assert(Seq::new(n, |i: int| i).drop_last() =~= Seq::new((n - 1) as nat, |i: int| i));
    }
}

/// The position of every stream, reckoned modulo `2^64`: four for each slot
/// between the first index of this process and that of the other.
pub proof fn lemma_start_position_wraps(
    local_table_size: u64,
    global_start: u64,
    my_proc: u64,
    p: u64,
)
    ensures
        start_position(local_table_size, global_start, my_proc, p) == (4 * (global_start
            - local_table_size * my_proc + local_table_size * p)) % 0x1_0000_0000_0000_0000,
{
    let m = 0x1_0000_0000_0000_0000int;
    let (a, b) = (local_table_size * my_proc, local_table_size * p);
    let (x, y) = (local_table_size.wrapping_mul(my_proc), local_table_size.wrapping_mul(p));
    let d = global_start.wrapping_sub(x);
    let e = d.wrapping_add(y);
    let f = e.wrapping_mul(4);
    let k1 = a / m;
    let k2 = b / m;
    assert(x == a - m * k1 && y == b - m * k2);
    let k3: int = if global_start < x {
        -1
    } else {
        0
    };
    assert(d == global_start - x - m * k3);
    let k4: int = if d + y >= m {
        1
    } else {
        0
    };
    assert(e == d + y - m * k4);
    let k5 = (e * 4) / m;
    assert(f == e * 4 - m * k5);
    let k = -4 * k1 + 4 * k2 + 4 * k3 + 4 * k4 + k5;
    let t = 4 * (global_start - a + b);
    vstd::arithmetic::div_mod::lemma_fundamental_div_mod_converse(t, m, k, f as int);
}

/// Where the segments of the processes before it do not reach beyond the first
/// index of this process, every stream is replayed from four positions for each
/// slot before the segment of its process.
pub proof fn lemma_start_position(local_table_size: u64, global_start: u64, my_proc: u64, p: u64)
    requires
        local_table_size * my_proc <= global_start,
        4 * (global_start - local_table_size * my_proc + local_table_size * p) <= u64::MAX,
    ensures
        start_position(local_table_size, global_start, my_proc, p) == 4 * (global_start
            - local_table_size * my_proc + local_table_size * p),
{
    let (s, m, q) = (local_table_size as int, my_proc as int, p as int);
    assert(0 <= s * m && 0 <= s * q) by (nonlinear_arith)
        requires
            s >= 0,
            m >= 0,
            q >= 0,
    ;
}

/// The streams of two processes are replayed from positions that lie apart by
/// four for every slot between their segments.
pub proof fn lemma_replayed_streams_lie_apart(
    local_table_size: u64,
    my_proc: u64,
    num_procs: u64,
    p: int,
    q: int,
)
    requires
        local_table_size * my_proc <= u64::MAX,
        4 * (local_table_size * (num_procs - 1)) <= u64::MAX,
        0 <= p <= q < num_procs,
    ensures
        ({
            let seeds = start_seeds(
                local_table_size,
                (local_table_size * my_proc) as u64,
                my_proc,
                num_procs as nat,
            );
            &&& seeds.len() == num_procs
            &&& seeds[0] == 1
            &&& seeds[p] == stream(1, (4 * (local_table_size * p)) as nat)
            &&& seeds[q] == stream(seeds[p], (4 * (local_table_size * (q - p))) as nat)
        }),
{
    lemma_replay_from_start(local_table_size, my_proc, num_procs);
    let s = local_table_size as int;
    assert(s * q == s * p + s * (q - p) && s * p >= 0 && s * (q - p) >= 0 && s * 0 == 0)
        by (nonlinear_arith)
        requires
            s >= 0,
            0 <= p <= q,
    ;
    crate::register::lemma_stream_compose(1, (4 * (s * p)) as nat, (4 * (s * (q - p))) as nat);
}

/// The value that a slot should hold, spelled out: its first value, which is its
/// global index, with the data of every stream added that the process owns and
/// that select the slot.
pub proof fn lemma_expected_value(
    seeds: Seq<u64>,
    n: nat,
    local_table_size: u64,
    global_start: u64,
    log_table_local: u64,
    num_procs: u64,
    rank: u64,
    i: int,
)
    requires
        0 <= i < local_table_size <= usize::MAX,
        global_start + local_table_size <= u64::MAX + 1,
    ensures
        ({
            let segment = segment_after(
                seeds,
                n,
                local_table_size,
                global_start,
                log_table_local,
                num_procs,
                rank,
            );
            let mine = |d: u64|
                (((d as i64) >> log_table_local) & ((num_procs - 1) as u64 as i64)) as u64 == rank
                    && d & ((local_table_size - 1) as u64) == i;
            let add = |a: u64, b: u64| a ^ b;
            let sum = |a: u64, w: u64|
                a ^ Seq::new(n, |k: int| stream(w, (k + 1) as nat)).filter(mine).fold_left(
                    0u64,
                    add,
                );
            &&& segment.len() == local_table_size
            &&& segment[i] == ((global_start + i) as u64) ^ seeds.fold_left(0u64, sum)
        }),
    decreases seeds.len(),
{
    let mask = (local_table_size - 1) as u64;
    let mine = |d: u64|
        (((d as i64) >> log_table_local) & ((num_procs - 1) as u64 as i64)) as u64 == rank && d
            & ((local_table_size - 1) as u64) == i;
    let chosen = reaches(log_table_local, num_procs, rank, mask, i);
    assert forall|d: u64| #[trigger] chosen(d) == mine(d) by {
        lemma_slot_in_table(d, mask, local_table_size as usize);
    }
    assert(chosen =~= mine);
    lemma_gathered_from_words(seeds, n, mine);
}

proof fn lemma_gathered_from_words(seeds: Seq<u64>, n: nat, chosen: spec_fn(u64) -> bool)
    ensures
        ({
            let add = |a: u64, b: u64| a ^ b;
            let sum = |a: u64, w: u64|
                a ^ Seq::new(n, |k: int| stream(w, (k + 1) as nat)).filter(chosen).fold_left(
                    0u64,
                    add,
                );
            gathered_from(seeds, n, chosen) == seeds.fold_left(0u64, sum)
        }),
    decreases seeds.len(),
{
    if seeds.len() > 0 {
        lemma_gathered_from_words(seeds.drop_last(), n, chosen);
        lemma_gathered_words(seeds.last(), n, chosen);
    }
}

/// Verification of a run without updates expects in every slot its global index.
pub proof fn lemma_expected_without_updates(
    seeds: Seq<u64>,
    local_table_size: u64,
    global_start: u64,
    log_table_local: u64,
    num_procs: u64,
    rank: u64,
)
    requires
        global_start + local_table_size <= u64::MAX + 1,
    ensures
        ({
            let segment = segment_after(
                seeds,
                0,
                local_table_size,
                global_start,
                log_table_local,
                num_procs,
                rank,
            );
            &&& segment.len() == local_table_size
            &&& forall|i: int|
                0 <= i < local_table_size ==> #[trigger] segment[i] == global_start + i
        }),
{
    let segment = segment_after(
        seeds,
        0,
        local_table_size,
        global_start,
        log_table_local,
        num_procs,
        rank,
    );
    assert forall|i: int| 0 <= i < local_table_size implies #[trigger] segment[i] == global_start
        + i by {
        lemma_nothing_gathered(
            seeds,
            reaches(log_table_local, num_procs, rank, (local_table_size - 1) as u64, i),
        );
        lemma_xor((global_start + i) as u64, 0, 0);
    }
}

proof fn lemma_nothing_gathered(seeds: Seq<u64>, chosen: spec_fn(u64) -> bool)
    ensures
        gathered_from(seeds, 0, chosen) == 0,
    decreases seeds.len(),
{
    if seeds.len() > 0 {
        lemma_nothing_gathered(seeds.drop_last(), chosen);
        lemma_xor(0, 0, 0);
    }
}

/// The errors are counted one for every slot, among those that both hold, where
/// the two differ.
pub proof fn lemma_differences_counted(a: Seq<u64>, b: Seq<u64>)
    ensures
        differences(a, b) == Seq::new(a.len(), |i: int| i).filter(
            |i: int| i < b.len() && a[i] != b[i],
        ).len(),
{
    lemma_prefix_differences_counted(a, b, a.len());
    assert(a.take(a.len() as int) =~= a);
}

proof fn lemma_prefix_differences_counted(a: Seq<u64>, b: Seq<u64>, k: nat)
    requires
        k <= a.len(),
    ensures
        differences(a.take(k as int), b) == Seq::new(k, |i: int| i).filter(
            |i: int| i < b.len() && a[i] != b[i],
        ).len(),
    decreases k,
{
    reveal(Seq::filter);
    if k > 0 {
        lemma_prefix_differences_counted(a, b, (k - 1) as nat);
        assert(a.take(k as int).drop_last() =~= a.take(k - 1));
        assert(Seq::new(k, |i: int| i).drop_last() =~= Seq::new((k - 1) as nat, |i: int| i));
    }
}

/// A process that knows its own first index replays every stream from where its
/// process started.
pub proof fn lemma_replay_from_start(local_table_size: u64, my_proc: u64, num_procs: u64)
    requires
        local_table_size * my_proc <= u64::MAX,
        4 * (local_table_size * (num_procs - 1)) <= u64::MAX,
    ensures
        start_seeds(
            local_table_size,
            (local_table_size * my_proc) as u64,
            my_proc,
            num_procs as nat,
        ) == update_seeds(local_table_size, num_procs as nat),
{
    let global_start = (local_table_size * my_proc) as u64;
    let seeds = start_seeds(local_table_size, global_start, my_proc, num_procs as nat);
    assert forall|p: int| 0 <= p < num_procs implies #[trigger] seeds[p] == update_seeds(
        local_table_size,
        num_procs as nat,
    )[p] by {
        let (s, last) = (local_table_size as int, num_procs - 1);
        assert(0 <= s * p <= s * last) by (nonlinear_arith)
            requires
                s >= 0,
                0 <= p <= last,
        ;
    }
    assert(seeds =~= update_seeds(local_table_size, num_procs as nat));
}

/// Places that only one of the sequences has do not count.
proof fn lemma_differences_of_prefix(a: Seq<u64>, b: Seq<u64>, k: nat)
    requires
        k <= a.len(),
        k == a.len() || k >= b.len(),
    ensures
        differences(a.take(k as int), b) == differences(a, b),
    decreases a.len(),
{
    if k == a.len() {
        assert(a.take(k as int) =~= a);
    } else {
        assert(a.drop_last().take(k as int) =~= a.take(k as int));
        lemma_differences_of_prefix(a.drop_last(), b, k);
    }
}

} // verus!
