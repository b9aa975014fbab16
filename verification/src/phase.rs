//! Update phase: a process walks its stream, makes the updates of its own
//! segment and hands out the others.
use crate::bits::lemma_signed_round_trip;
use crate::history::{applied, lemma_update_phase_verifies, sent_by_all, sent_to};
use crate::plan::{distributed_warmup_count, warmup_count, warmup_updates, Plan};
use crate::plan::{
    lemma_plan_suits_verification, lemma_seed_position, lemma_segments_fill_table,
};
use crate::register::{lemma_stream_compose, step, stream};
use crate::rng::{lfsr_step, starts};
use crate::routing::{lemma_owner_in_range, owner, target_process};
use crate::table::lemma_slot_in_table;
use crate::table::{apply_stream, apply_update, fresh_table, init_table};
use crate::table::{gathered, iterations, selects, slot_of, updated};
use crate::verify::{differences, segment_after, start_seeds, update_seeds};
use vstd::arithmetic::power2::{lemma_pow2_strictly_increases, pow2};
use vstd::prelude::*;

verus! {

/// Pending transfers are progressed once in this many updates.
pub const PROGRESS_INTERVAL: i64 = 1024;

/// An update of one slot of the whole table.
#[derive(Debug, Clone, Copy, PartialEq, Eq, Structural)]
pub struct SlotUpdate {
    /// Rank of the process that owns the slot.
    pub owner: usize,
    /// Slot within the segment of that process.
    pub offset: usize,
    /// Word to combine with the slot by exclusive or.
    pub value: u64,
}

/// One turn of the update phase.
#[derive(Debug, Clone, Copy, PartialEq, Eq, Structural)]
pub struct Turn {
    pub update: SlotUpdate,
    /// Whether the slot belongs to this process.
    pub own: bool,
    /// Whether pending transfers are due to be progressed.
    pub progress: bool,
}

/// State of the update phase of one process.
#[derive(Debug, Clone, Copy, PartialEq, Eq, Structural)]
pub struct UpdatePhase {
    /// State of the register after the updates made so far.
    pub ran: i64,
    /// Number of updates made so far.
    pub iteration: i64,
    /// Number of updates to make.
    pub count: i64,
    pub rank: u64,
    pub num_procs: u64,
    pub log_table_local: u64,
    pub local_mask: u64,
}

impl UpdatePhase {
    /// The numbers of the phase are in range.
    pub open spec fn valid(self) -> bool {
        &&& 0 <= self.iteration
        &&& 1 <= self.num_procs <= usize::MAX
        &&& self.log_table_local < 64
        &&& self.local_mask < usize::MAX
    }

    /// The phase of the process that `plan` describes, before its first update.
    pub open spec fn at_start(plan: Plan) -> Self {
        UpdatePhase {
            ran: stream(1, plan.seed_position()) as i64,
            iteration: 0,
            count: plan.proc_num_updates,
            rank: plan.rank,
            num_procs: plan.num_procs,
            log_table_local: plan.log_table_local,
            local_mask: (plan.local_table_size - 1) as u64,
        }
    }

    /// The datum of the next update.
    pub open spec fn datum(self) -> u64 {
        step(self.ran as u64)
    }

    /// Rank of the process that owns the slot of the next update.
    pub open spec fn target(self) -> u64 {
        owner(self.datum(), self.log_table_local, self.num_procs)
    }

    /// The phase after the next update.
    pub open spec fn advanced(self) -> Self {
        UpdatePhase {
            ran: self.datum() as i64,
            iteration: (self.iteration + 1) as i64,
            ..self
        }
    }

    /// The turn that makes the next update.
    pub open spec fn turn(self) -> Turn {
        Turn {
            update: SlotUpdate {
                owner: self.target() as usize,
                offset: slot_of(self.datum(), self.local_mask) as usize,
                value: self.datum(),
            },
            own: self.target() == self.rank,
            progress: self.iteration % 1024 == 0,
        }
    }

    /// The local segment after the next update.
    pub open spec fn table_after(self, table: Seq<u64>) -> Seq<u64> {
        if self.target() == self.rank {
            updated(table, self.datum(), self.local_mask)
        } else {
            table
        }
    }

    /// The phase after `k` updates.
    pub open spec fn advanced_by(self, k: nat) -> Self
        decreases k,
    {
        if k == 0 {
            self
        } else {
            self.advanced_by((k - 1) as nat).advanced()
        }
    }

    /// The local segment after `k` updates.
    pub open spec fn table_after_all(self, table: Seq<u64>, k: nat) -> Seq<u64>
        decreases k,
    {
        if k == 0 {
            table
        } else {
            let j = (k - 1) as nat;
            self.advanced_by(j).table_after(self.table_after_all(table, j))
        }
    }

    /// The words of the updates of the segment of process `owner` among the
    /// first `k`.
    pub open spec fn handed_out(self, owner: usize, k: nat) -> Seq<u64>
        decreases k,
    {
        if k == 0 {
            Seq::empty()
        } else {
            let j = (k - 1) as nat;
            let update = self.advanced_by(j).turn().update;
            if update.owner == owner {
                self.handed_out(owner, j).push(update.value)
            } else {
                self.handed_out(owner, j)
            }
        }
    }

    /// The phase of the process that `plan` describes, before its first update.
    pub fn start(plan: &Plan) -> (phase: Self)
        requires
            plan.valid(),
            plan.rank < plan.num_procs,
            plan.num_procs <= usize::MAX,
            plan.local_table_size * 8 <= isize::MAX,
        ensures
            phase == Self::at_start(*plan),
            phase.valid(),
            phase.ran as u64 == stream(1, plan.seed_position()),
            phase.count == plan.proc_num_updates,
            phase.ran as u64 == stream(
                1,
                (4 * ((plan.table_size / plan.num_procs) * plan.rank)) as nat,
            ),
            phase.iteration == 0,
            phase.rank == plan.rank,
            phase.num_procs == plan.num_procs,
            phase.log_table_local == plan.log_table_local,
            phase.local_mask == plan.table_size / plan.num_procs - 1,
    {
        proof {
            lemma_plan_suits_verification(*plan);
            lemma_seed_position(*plan);
        }
        UpdatePhase {
            ran: starts(4 * plan.global_start),
            iteration: 0,
            count: plan.proc_num_updates,
            rank: plan.rank,
            num_procs: plan.num_procs,
            log_table_local: plan.log_table_local,
            local_mask: plan.local_table_size - 1,
        }
    }

    /// A phase as `start` gives it, but with the updates that are made before the
    /// clock starts and do not count.
    pub fn start_warm_up(plan: &Plan) -> (phase: Self)
        requires
            plan.valid(),
            plan.rank < plan.num_procs,
            plan.num_procs <= usize::MAX,
            plan.local_table_size * 8 <= isize::MAX,
        ensures
            phase == (UpdatePhase {
                count: if plan.num_updates / 10 < 1000 {
                    (plan.num_updates / 10) as i64
                } else {
                    1000
                },
                ..Self::at_start(*plan)
            }),
            phase.valid(),
            phase.ran as u64 == stream(1, plan.seed_position()),
            plan.num_updates < 10_000 ==> phase.count == plan.num_updates / 10,
            plan.num_updates >= 10_000 ==> phase.count == 1000,
            phase.ran as u64 == stream(
                1,
                (4 * ((plan.table_size / plan.num_procs) * plan.rank)) as nat,
            ),
            phase.iteration == 0,
            phase.rank == plan.rank,
            phase.num_procs == plan.num_procs,
            phase.log_table_local == plan.log_table_local,
            phase.local_mask == plan.table_size / plan.num_procs - 1,
    {
        UpdatePhase {
            count: distributed_warmup_count(plan.num_updates),
            ..Self::start(plan)
        }
    }

    /// Take the next update from the stream, for the caller to make. `None` once
    /// all updates are taken.
    pub fn draw(&mut self) -> (turn: Option<Turn>)
        requires
            old(self).valid(),
        ensures
            final(self).valid(),
            old(self).iteration >= old(self).count ==> turn is None && *final(self) == *old(self),
            old(self).iteration < old(self).count ==> {
                &&& turn == Some(old(self).turn())
                &&& *final(self) == old(self).advanced()
                &&& final(self).ran as u64 == old(self).datum()
                &&& turn->0.update.owner < old(self).num_procs
                &&& turn->0.update.offset <= old(self).local_mask
                &&& turn is Some
                &&& turn->0.update.value == step(old(self).ran as u64)
                &&& turn->0.update.offset == turn->0.update.value & old(self).local_mask
                &&& turn->0.update.owner == (((turn->0.update.value as i64) >> old(
                    self,
                ).log_table_local) & ((old(self).num_procs - 1) as u64 as i64)) as u64
                &&& turn->0.own <==> turn->0.update.owner == old(self).rank
                &&& turn->0.progress <==> old(self).iteration % 1024 == 0
                &&& final(self).ran as u64 == turn->0.update.value
                &&& final(self).iteration == old(self).iteration + 1
                &&& final(self).count == old(self).count
                &&& final(self).rank == old(self).rank
                &&& final(self).num_procs == old(self).num_procs
                &&& final(self).log_table_local == old(self).log_table_local
                &&& final(self).local_mask == old(self).local_mask
            },
    {
        if self.iteration >= self.count {
            return None;
        }
        let progress: bool = self.iteration % PROGRESS_INTERVAL == 0;
        self.ran = lfsr_step(self.ran);
        let datum: u64 = self.ran as u64;
        let remote_proc: u64 = target_process(self.ran, self.log_table_local, self.num_procs);
        proof {
            lemma_slot_in_table(datum, self.local_mask, (self.local_mask + 1) as usize);
        }
        self.iteration = self.iteration + 1;
        let update = SlotUpdate {
            owner: remote_proc as usize,
            offset: (datum & self.local_mask) as usize,
            value: datum,
        };
        Some(Turn { update, own: remote_proc == self.rank, progress })
    }

    /// Make the next update: in `table`, which no other process updates
    /// meanwhile, where this process owns the slot, otherwise as an update for
    /// the caller to deliver. `None` once all updates are made.
    pub fn next(&mut self, table: &mut [u64]) -> (turn: Option<Turn>)
        requires
            old(self).valid(),
            old(self).local_mask < old(table)@.len(),
        ensures
            final(self).valid(),
            old(self).iteration >= old(self).count ==> {
                &&& turn is None
                &&& *final(self) == *old(self)
                &&& final(table)@ == old(table)@
            },
            old(self).iteration < old(self).count ==> {
                &&& turn == Some(old(self).turn())
                &&& *final(self) == old(self).advanced()
                &&& final(self).ran as u64 == old(self).datum()
                &&& final(table)@ == old(self).table_after(old(table)@)
                &&& turn->0.update.owner < old(self).num_procs
                &&& turn->0.update.offset <= old(self).local_mask
                &&& turn is Some
                &&& turn->0.update.value == step(old(self).ran as u64)
                &&& turn->0.update.offset == turn->0.update.value & old(self).local_mask
                &&& turn->0.update.owner == (((turn->0.update.value as i64) >> old(
                    self,
                ).log_table_local) & ((old(self).num_procs - 1) as u64 as i64)) as u64
                &&& turn->0.own <==> turn->0.update.owner == old(self).rank
                &&& turn->0.progress <==> old(self).iteration % 1024 == 0
                &&& final(self).ran as u64 == turn->0.update.value
                &&& final(self).iteration == old(self).iteration + 1
                &&& final(self).count == old(self).count
                &&& final(self).rank == old(self).rank
                &&& final(self).num_procs == old(self).num_procs
                &&& final(self).log_table_local == old(self).log_table_local
                &&& final(self).local_mask == old(self).local_mask
                &&& final(table)@.len() == old(table)@.len()
                &&& forall|i: int|
                    0 <= i < final(table)@.len() ==> #[trigger] final(table)@[i] == (if turn->0.own
                        && i == turn->0.update.offset {
                        old(table)@[i] ^ turn->0.update.value
                    } else {
                        old(table)@[i]
                    })
            },
    {
        let drawn: Option<Turn> = self.draw();
        if let Some(turn) = drawn {
            if turn.own {
                proof {
                    let len = (self.local_mask + 1) as usize;
                    lemma_slot_in_table(turn.update.value, self.local_mask, len);
                }
                apply_update(table, turn.update.value, self.local_mask);
            }
        }
        drawn
    }
}

/// After `k` updates the register has made `k` steps, every process was handed
/// the updates of its segment, and the local segment has had those of this
/// process.
pub proof fn lemma_phase_follows_stream(phase: UpdatePhase, table: Seq<u64>, peer: usize, k: nat)
    requires
        phase.valid(),
    ensures
        ({
            let w = phase.ran as u64;
            let end = phase.advanced_by(k);
            &&& end.ran as u64 == stream(w, k)
            &&& phase.handed_out(peer, k) == sent_to(
                w,
                k,
                phase.log_table_local,
                phase.num_procs,
                peer as u64,
            )
            &&& phase.table_after_all(table, k) == applied(
                table,
                sent_to(w, k, phase.log_table_local, phase.num_procs, phase.rank),
                phase.local_mask,
            )
        }),
    decreases k,
{
    if k > 0 {
        let j = (k - 1) as nat;
        lemma_phase_follows_stream(phase, table, peer, j);
        lemma_settings_stay(phase, j);
        let before = phase.advanced_by(j);
        let datum = before.datum();
        lemma_signed_round_trip(datum);
        lemma_owner_in_range(datum, phase.log_table_local, phase.num_procs);
        let own = sent_to(phase.ran as u64, j, phase.log_table_local, phase.num_procs, phase.rank);
        assert(own.push(datum).drop_last() =~= own);
    }
}

proof fn lemma_settings_stay(phase: UpdatePhase, k: nat)
    ensures
        ({
            let end = phase.advanced_by(k);
            &&& end.rank == phase.rank
            &&& end.num_procs == phase.num_procs
            &&& end.log_table_local == phase.log_table_local
            &&& end.local_mask == phase.local_mask
        }),
    decreases k,
{
    if k > 0 {
        lemma_settings_stay(phase, (k - 1) as nat);
    }
}

/// The streams of two processes of one run start exactly four positions apart
/// for every slot between their segments.
pub proof fn lemma_streams_start_apart(plan: Plan, other: Plan)
    requires
        plan.valid(),
        other.valid(),
        plan.table_size == other.table_size,
        plan.num_procs == other.num_procs,
        plan.rank <= other.rank,
    ensures
        ({
            let segment = plan.table_size / plan.num_procs;
            let first = UpdatePhase::at_start(plan).ran as u64;
            let second = UpdatePhase::at_start(other).ran as u64;
            &&& first == stream(1, (4 * (segment * plan.rank)) as nat)
            &&& second == stream(first, (4 * (segment * (other.rank - plan.rank))) as nat)
        }),
{
    lemma_seed_position(plan);
    lemma_seed_position(other);
    lemma_signed_round_trip(stream(1, plan.seed_position()));
    lemma_signed_round_trip(stream(1, other.seed_position()));
    let (s, r, q) = (
        (plan.table_size / plan.num_procs) as int,
        plan.rank as int,
        other.rank as int,
    );
    assert(s * q == s * r + s * (q - r) && s * (q - r) >= 0 && s * r >= 0) by (nonlinear_arith)
        requires
            s >= 0,
            0 <= r <= q,
    ;
    lemma_stream_compose(1, (4 * (s * r)) as nat, (4 * (s * (q - r))) as nat);
}

/// Update number `k` of a process, counted from 1, is the word at its own place
/// of the one stream from 1: behind `4 * (table_size / num_procs) * rank` words.
pub proof fn lemma_update_position(plan: Plan, k: nat)
    requires
        plan.valid(),
        plan.rank < plan.num_procs <= usize::MAX,
        plan.local_table_size * 8 <= isize::MAX,
    ensures
        UpdatePhase::at_start(plan).advanced_by(k).ran as u64 == stream(
            1,
            (4 * ((plan.table_size / plan.num_procs) * plan.rank) + k) as nat,
        ),
{
    let phase = UpdatePhase::at_start(plan);
    lemma_seed_position(plan);
    lemma_plan_suits_verification(plan);
    lemma_signed_round_trip(stream(1, plan.seed_position()));
    lemma_phase_follows_stream(phase, Seq::empty(), 0, k);
    lemma_stream_compose(1, plan.seed_position(), k);
}

/// The word of an update selects the slot that the update names, so combining
/// the two at the owner is the update of the owner's segment.
pub proof fn lemma_delivery_is_update(phase: UpdatePhase, table: Seq<u64>)
    requires
        phase.valid(),
        phase.local_mask < table.len() <= usize::MAX,
    ensures
        ({
            let update = phase.turn().update;
            &&& update.offset < table.len()
            &&& table.update(update.offset as int, table[update.offset as int] ^ update.value)
                == updated(table, update.value, phase.local_mask)
        }),
{
    lemma_slot_in_table(phase.datum(), phase.local_mask, table.len() as usize);
}

/// What the phases hand out for the segment of process `rank` in `n` updates
/// each, one phase after the other.
pub open spec fn received(phases: Seq<UpdatePhase>, rank: usize, n: nat) -> Seq<u64>
    decreases phases.len(),
{
    if phases.len() == 0 {
        Seq::empty()
    } else {
        received(phases.drop_last(), rank, n) + phases.last().handed_out(rank, n)
    }
}

/// The plans of all the processes of one run, by rank.
pub open spec fn plans_of_one_run(plans: Seq<Plan>) -> bool {
    forall|p: int|
        0 <= p < plans.len() ==> {
            let plan = #[trigger] plans[p];
            &&& plan.valid()
            &&& plan.rank == p
            &&& plan.num_procs == plans.len()
            &&& plan.table_size == plans[0].table_size
            &&& plan.num_updates == plans[0].num_updates
        }
}

/// A run of any number of processes verifies on every rank: where process `rank`
/// receives, in any order, its own updates and what the phases of the other
/// processes hand out for it, verification finds no error in its segment.
pub proof fn lemma_run_verifies(
    plans: Seq<Plan>,
    phases: Seq<UpdatePhase>,
    rank: usize,
    arrivals: Seq<u64>,
)
    requires
        plans_of_one_run(plans),
        rank < plans.len(),
        plans[rank as int].local_table_size * 8 <= isize::MAX,
        phases.len() == plans.len() <= usize::MAX,
        forall|p: int|
            0 <= p < plans.len() ==> #[trigger] phases[p] == UpdatePhase::at_start(plans[p]),
        arrivals.to_multiset() == received(
            phases,
            rank,
            iterations(plans[rank as int].proc_num_updates),
        ).to_multiset(),
    ensures
        ({
            let plan = plans[rank as int];
            differences(
                applied(
                    fresh_table(plan.local_table_size as nat, plan.global_start),
                    arrivals,
                    (plan.local_table_size - 1) as u64,
                ),
                segment_after(
                    start_seeds(
                        plan.local_table_size,
                        plan.global_start,
                        plan.rank,
                        plan.num_procs as nat,
                    ),
                    iterations(plan.proc_num_updates),
                    plan.local_table_size,
                    plan.global_start,
                    (plan.log_table_size - plan.log_num_procs) as u64,
                    plan.num_procs,
                    plan.rank,
                ),
            ) == 0
        }),
{
    let plan = plans[rank as int];
    let n = iterations(plan.proc_num_updates);
    lemma_plan_suits_verification(plan);
    let seeds = update_seeds(plan.local_table_size, plan.num_procs as nat);
    assert forall|p: int| 0 <= p < plans.len() implies {
        let phase = #[trigger] phases[p];
        &&& phase.valid()
        &&& phase.ran as u64 == seeds[p]
        &&& phase.num_procs == plan.num_procs
        &&& phase.log_table_local == plan.log_table_local
    } by {
        let other = plans[p];
        lemma_signed_round_trip(stream(1, other.seed_position()));
        lemma_segments_fill_table(plan, other);
        lemma_same_power(plan.log_table_local as nat, other.log_table_local as nat);
    }
    lemma_received_is_sent(phases, seeds, n, plan.log_table_local, plan.num_procs, rank);
    lemma_update_phase_verifies(
        n,
        plan.local_table_size,
        plan.log_table_local,
        plan.num_procs,
        plan.rank,
        arrivals,
    );
}

proof fn lemma_same_power(a: nat, b: nat)
    requires
        pow2(a) == pow2(b),
    ensures
        a == b,
{
    if a < b {
        lemma_pow2_strictly_increases(a, b);
    } else if b < a {
        lemma_pow2_strictly_increases(b, a);
    }
}

proof fn lemma_received_is_sent(
    phases: Seq<UpdatePhase>,
    seeds: Seq<u64>,
    n: nat,
    log_table_local: u64,
    num_procs: u64,
    rank: usize,
)
    requires
        phases.len() == seeds.len(),
        forall|p: int|
            0 <= p < phases.len() ==> {
                let phase = #[trigger] phases[p];
                &&& phase.valid()
                &&& phase.ran as u64 == seeds[p]
                &&& phase.num_procs == num_procs
                &&& phase.log_table_local == log_table_local
            },
    ensures
        received(phases, rank, n) == sent_by_all(
            seeds,
            n,
            log_table_local,
            num_procs,
            rank as u64,
        ),
    decreases phases.len(),
{
    if phases.len() > 0 {
        let last = phases.last();
        assert(last == phases[phases.len() - 1]);
        lemma_received_is_sent(
            phases.drop_last(),
            seeds.drop_last(),
            n,
            log_table_local,
            num_procs,
            rank,
        );
        lemma_phase_follows_stream(last, Seq::empty(), rank, n);
    }
}

/// Make the updates that settle caches and branch predictors before a
/// single-process run: the first ones of its stream.
pub fn warm_up(table: &mut [u64], proc_num_updates: i64, local_mask: u64)
    requires
        local_mask < old(table)@.len(),
    ensures
        final(table)@.len() == old(table)@.len(),
        forall|i: int|
            0 <= i < final(table)@.len() ==> #[trigger] final(table)@[i] == old(table)@[i]
                ^ gathered(1, warmup_updates(proc_num_updates), selects(local_mask, i)),
        ({
            let count: int = if proc_num_updates < 200 {
                1
            } else if proc_num_updates < 1_000_000 {
                proc_num_updates as int / 100
            } else {
                10_000
            };
            final(table)@ == Seq::new(
                count as nat,
                |k: int| stream(1, (k + 1) as nat),
            ).fold_left(
                old(table)@,
                |t: Seq<u64>, d: u64|
                    t.update((d & local_mask) as int, t[(d & local_mask) as int] ^ d),
            )
        }),
{
    let warm: i64 = starts(0);
    apply_stream(table, warm, warmup_count(proc_num_updates), local_mask);
}

/// Prepare a single-process run: fill the table, warm it up with updates that
/// do not count, fill it again, and return the state the timed updates start
/// from.
pub fn prepare_single(table: &mut [u64], proc_num_updates: i64, local_mask: u64) -> (ran: i64)
    requires
        local_mask < old(table)@.len(),
    ensures
        final(table)@ == fresh_table(old(table)@.len(), 0),
        final(table)@.len() == old(table)@.len(),
        forall|i: int| 0 <= i < final(table)@.len() ==> #[trigger] final(table)@[i] == i,
        ran == 1,
{
    assert(table.len() == table@.len());
    init_table(table, 0);
    warm_up(table, proc_num_updates, local_mask);
    init_table(table, 0);
    starts(0)
}

} // verus!
