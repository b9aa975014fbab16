//! Communication between processes: what is published and looked up, where
//! remote slots lie, and how a remote update is driven to its delivery.
use vstd::prelude::*;

verus! {

/// Message tag of synchronisation messages.
pub const TAG_SYNC: u64 = 0x3000;

/// Message tag of verification messages.
pub const TAG_VERIFY: u64 = 0x4000;

/// Key under which a process publishes its worker address.
pub const PMIX_KEY_UCX_ADDR: &'static str = "gups.ucx.addr";

/// Key under which a process publishes the access key of its segment.
pub const PMIX_KEY_UCX_MEMH: &'static str = "gups.ucx.memh";

/// Key under which a process publishes the address of its segment.
pub const PMIX_KEY_UCX_TABLE_ADDR: &'static str = "gups.ucx.table_addr";

/// Bytes of one table slot.
pub const SLOT_BYTES: usize = 8;

/// What the processes have published, by rank.
pub struct Directory {
    rank: usize,
    worker_addrs: Vec<Vec<u8>>,
    access_keys: Vec<Vec<u8>>,
    table_addrs: Vec<u64>,
}

/// What one process has published.
#[verifier::ext_equal]
pub struct PeerEntry {
    pub worker_addr: Seq<u8>,
    pub access_key: Seq<u8>,
    pub table_addr: u64,
}

impl View for Directory {
    type V = Seq<PeerEntry>;

    closed spec fn view(&self) -> Seq<PeerEntry> {
        Seq::new(
            self.worker_addrs@.len(),
            |p: int|
                PeerEntry {
                    worker_addr: self.worker_addrs@[p]@,
                    access_key: self.access_keys@[p]@,
                    table_addr: self.table_addrs@[p],
                },
        )
    }
}

impl Directory {
    /// One entry of each kind for every process, this one among them.
    pub closed spec fn valid(&self) -> bool {
        &&& self.rank < self.worker_addrs@.len()
        &&& self.access_keys@.len() == self.worker_addrs@.len()
        &&& self.table_addrs@.len() == self.worker_addrs@.len()
    }

    /// Rank of the process that the directory belongs to.
    pub closed spec fn own_rank(&self) -> usize {
        self.rank
    }

    /// A directory of `size` processes in which only the addresses of this
    /// process are known.
    pub fn new(rank: usize, size: usize, worker_addr: Vec<u8>, table_addr: u64) -> (directory: Self)
        requires
            rank < size,
        ensures
            directory.valid(),
            directory.own_rank() == rank,
            directory@.len() == size,
            forall|p: int|
                0 <= p < size ==> #[trigger] directory@[p] == (PeerEntry {
                    worker_addr: if p == rank {
                        worker_addr@
                    } else {
                        Seq::empty()
                    },
                    access_key: Seq::empty(),
                    table_addr: if p == rank {
                        table_addr
                    } else {
                        0
                    },
                }),
    {
        let mut worker_addrs: Vec<Vec<u8>> = Vec::new();
        let mut access_keys: Vec<Vec<u8>> = Vec::new();
        let mut table_addrs: Vec<u64> = Vec::new();
        let mut p: usize = 0;
        while p < size
            invariant
                p <= size,
                worker_addrs@.len() == p,
                access_keys@.len() == p,
                table_addrs@.len() == p,
                forall|q: int|
                    0 <= q < p ==> (#[trigger] worker_addrs@[q])@ == Seq::<u8>::empty(),
                forall|q: int| 0 <= q < p ==> (#[trigger] access_keys@[q])@ == Seq::<u8>::empty(),
                forall|q: int| 0 <= q < p ==> #[trigger] table_addrs@[q] == 0,
            decreases size - p,
        {
            worker_addrs.push(Vec::new());
            access_keys.push(Vec::new());
            table_addrs.push(0);
            p = p + 1;
        }
        worker_addrs[rank] = worker_addr;
        table_addrs[rank] = table_addr;
        Directory { rank, worker_addrs, access_keys, table_addrs }
    }

    /// Enter what process `peer` has published.
    pub fn record(
        &mut self,
        peer: usize,
        worker_addr: Vec<u8>,
        access_key: Vec<u8>,
        table_addr: u64,
    )
        requires
            old(self).valid(),
            peer < old(self)@.len(),
        ensures
            final(self).valid(),
            final(self).own_rank() == old(self).own_rank(),
            final(self)@ == old(self)@.update(
                peer as int,
                PeerEntry {
                    worker_addr: worker_addr@,
                    access_key: access_key@,
                    table_addr,
                },
            ),
    {
        let ghost before = self@;
        self.worker_addrs[peer] = worker_addr;
        self.access_keys[peer] = access_key;
        self.table_addrs[peer] = table_addr;
        assert(self@ =~= before.update(
            peer as int,
            PeerEntry { worker_addr: worker_addr@, access_key: access_key@, table_addr },
        ));
    }

    /// Number of processes.
    pub fn size(&self) -> (size: usize)
        requires
            self.valid(),
        ensures
            size == self@.len(),
    {
        self.worker_addrs.len()
    }

    /// Worker address of process `peer`.
    pub fn worker_addr(&self, peer: usize) -> (addr: &Vec<u8>)
        requires
            self.valid(),
            peer < self@.len(),
        ensures
            addr@ == self@[peer as int].worker_addr,
    {
        &self.worker_addrs[peer]
    }

    /// Access key of the segment of process `peer`.
    pub fn access_key(&self, peer: usize) -> (key: &Vec<u8>)
        requires
            self.valid(),
            peer < self@.len(),
        ensures
            key@ == self@[peer as int].access_key,
    {
        &self.access_keys[peer]
    }

    /// Address of the segment of process `peer`.
    pub fn table_addr(&self, peer: usize) -> (addr: u64)
        requires
            self.valid(),
            peer < self@.len(),
        ensures
            addr == self@[peer as int].table_addr,
    {
        self.table_addrs[peer]
    }

    /// Whether updates for `peer` go through an endpoint: those of this process
    /// are made in memory.
    pub fn needs_endpoint(&self, peer: usize) -> (yes: bool)
        ensures
            yes == (peer != self.own_rank()),
    {
        peer != self.rank
    }

    /// Address of slot `offset` in the segment of process `peer`.
    pub fn slot_address(&self, peer: usize, offset: usize) -> (addr: u64)
        requires
            self.valid(),
            peer < self@.len(),
            offset * 8 <= usize::MAX,
            self@[peer as int].table_addr + offset * 8 <= u64::MAX,
        ensures
            addr == self@[peer as int].table_addr + offset * 8,
    {
        self.table_addr(peer) + (offset * SLOT_BYTES) as u64
    }
}

/// Bytes of a segment of `local_table_size` slots.
pub fn segment_bytes(local_table_size: usize) -> (bytes: usize)
    requires
        local_table_size * 8 <= usize::MAX,
    ensures
        bytes == local_table_size * 8,
{
    local_table_size * SLOT_BYTES
}

/// Every slot of a segment lies inside its bytes, and no two slots overlap.
pub proof fn lemma_slots_are_apart(a: int, b: int, local_table_size: int)
    requires
        0 <= a < b < local_table_size,
    ensures
        a * 8 + 8 <= b * 8,
        b * 8 + 8 <= local_table_size * 8,
{
}

/// What a remote update waits for next.
#[derive(Debug, Clone, Copy, PartialEq, Eq, Structural)]
pub enum DeliveryStep {
    /// The update is to be posted.
    Post,
    /// The request of the posted update is to be polled.
    PollUpdate,
    /// The endpoint is to be flushed.
    Flush,
    /// The request of the flush is to be polled.
    PollFlush,
    /// The update is settled.
    Done,
}

/// What a step led to.
#[derive(Debug, Clone, Copy, PartialEq, Eq, Structural)]
pub enum DeliveryEvent {
    /// It is complete.
    Completed,
    /// Its request is still in flight.
    InFlight,
    /// It failed.
    Failed,
}

/// How to go on after a step of a delivery.
#[derive(Debug, Clone, Copy, PartialEq, Eq, Structural)]
pub struct DeliveryMove {
    pub next: DeliveryStep,
    /// Whether to progress the transport before the next step.
    pub progress: bool,
    /// Whether to report a failure.
    pub report: bool,
}

/// The step that follows `step` when it led to `event`: a request in flight is
/// polled until it settles, a failure counts as settled, and the endpoint is
/// flushed whatever became of the update.
pub open spec fn step_after(step: DeliveryStep, event: DeliveryEvent) -> DeliveryStep {
    match (step, event) {
        (DeliveryStep::Post, DeliveryEvent::InFlight) => DeliveryStep::PollUpdate,
        (DeliveryStep::PollUpdate, DeliveryEvent::InFlight) => DeliveryStep::PollUpdate,
        (DeliveryStep::Post, _) => DeliveryStep::Flush,
        (DeliveryStep::PollUpdate, _) => DeliveryStep::Flush,
        (DeliveryStep::Flush, DeliveryEvent::InFlight) => DeliveryStep::PollFlush,
        (DeliveryStep::PollFlush, DeliveryEvent::InFlight) => DeliveryStep::PollFlush,
        (DeliveryStep::Flush, _) => DeliveryStep::Done,
        (DeliveryStep::PollFlush, _) => DeliveryStep::Done,
        (DeliveryStep::Done, _) => DeliveryStep::Done,
    }
}

/// The step reached from `step` after `events`.
pub open spec fn step_after_all(step: DeliveryStep, events: Seq<DeliveryEvent>) -> DeliveryStep
    decreases events.len(),
{
    if events.len() == 0 {
        step
    } else {
        step_after(step_after_all(step, events.drop_last()), events.last())
    }
}

/// Decide how a delivery goes on.
pub fn delivery_next(step: DeliveryStep, event: DeliveryEvent) -> (result: DeliveryMove)
    ensures
        result.next == step_after(step, event),
        result.progress <==> event == DeliveryEvent::InFlight && (step == DeliveryStep::PollUpdate
            || step == DeliveryStep::PollFlush),
        result.report <==> event == DeliveryEvent::Failed && step != DeliveryStep::Done,
{
    match step {
        DeliveryStep::Post => match event {
            DeliveryEvent::InFlight => DeliveryMove {
                next: DeliveryStep::PollUpdate,
                progress: false,
                report: false,
            },
            DeliveryEvent::Completed => DeliveryMove {
                next: DeliveryStep::Flush,
                progress: false,
                report: false,
            },
            DeliveryEvent::Failed => DeliveryMove {
                next: DeliveryStep::Flush,
                progress: false,
                report: true,
            },
        },
        DeliveryStep::PollUpdate => match event {
            DeliveryEvent::InFlight => DeliveryMove {
                next: DeliveryStep::PollUpdate,
                progress: true,
                report: false,
            },
            DeliveryEvent::Completed => DeliveryMove {
                next: DeliveryStep::Flush,
                progress: false,
                report: false,
            },
            DeliveryEvent::Failed => DeliveryMove {
                next: DeliveryStep::Flush,
                progress: false,
                report: true,
            },
        },
        DeliveryStep::Flush => match event {
            DeliveryEvent::InFlight => DeliveryMove {
                next: DeliveryStep::PollFlush,
                progress: false,
                report: false,
            },
            DeliveryEvent::Completed => DeliveryMove {
                next: DeliveryStep::Done,
                progress: false,
                report: false,
            },
            DeliveryEvent::Failed => DeliveryMove {
                next: DeliveryStep::Done,
                progress: false,
                report: true,
            },
        },
        DeliveryStep::PollFlush => match event {
            DeliveryEvent::InFlight => DeliveryMove {
                next: DeliveryStep::PollFlush,
                progress: true,
                report: false,
            },
            DeliveryEvent::Completed => DeliveryMove {
                next: DeliveryStep::Done,
                progress: false,
                report: false,
            },
            DeliveryEvent::Failed => DeliveryMove {
                next: DeliveryStep::Done,
                progress: false,
                report: true,
            },
        },
        DeliveryStep::Done => DeliveryMove {
            next: DeliveryStep::Done,
            progress: false,
            report: false,
        },
    }
}

/// Where a delivery stands after `events`, by how many of them were no longer in
/// flight: the first of these ends the update, the second ends the flush, and
/// until then whatever is in flight is polled.
pub proof fn lemma_delivery_stands(events: Seq<DeliveryEvent>)
    ensures
        ({
            let ended = events.filter(|e: DeliveryEvent| e != DeliveryEvent::InFlight).len();
            step_after_all(DeliveryStep::Post, events) == (if ended >= 2 {
                DeliveryStep::Done
            } else if ended == 1 {
                if events.last() == DeliveryEvent::InFlight {
                    DeliveryStep::PollFlush
                } else {
                    DeliveryStep::Flush
                }
            } else if events.len() > 0 {
                DeliveryStep::PollUpdate
            } else {
                DeliveryStep::Post
            })
        }),
    decreases events.len(),
{
    reveal(Seq::filter);
    if events.len() > 0 {
        lemma_delivery_stands(events.drop_last());
    }
}

/// A remote update is never settled before its endpoint was flushed and the
/// flush was no longer in flight.
pub proof fn lemma_settled_after_flush(events: Seq<DeliveryEvent>)
    requires
        step_after_all(DeliveryStep::Post, events) == DeliveryStep::Done,
    ensures
        exists|k: int|
            0 <= k < events.len() && step_after_all(DeliveryStep::Post, #[trigger] events.take(k))
                == DeliveryStep::Flush,
        exists|k: int|
            0 <= k < events.len() && #[trigger] events[k] != DeliveryEvent::InFlight && ({
                let step = step_after_all(DeliveryStep::Post, events.take(k));
                step == DeliveryStep::Flush || step == DeliveryStep::PollFlush
            }),
    decreases events.len(),
{
    let rest = events.drop_last();
    let before = step_after_all(DeliveryStep::Post, rest);
    let n = rest.len() as int;
    assert(events.take(n) =~= rest);
    if before == DeliveryStep::Done {
        lemma_settled_after_flush(rest);
        let k = choose|k: int|
            0 <= k < rest.len() && step_after_all(DeliveryStep::Post, #[trigger] rest.take(k))
                == DeliveryStep::Flush;
        assert(events.take(k) =~= rest.take(k));
        let m = choose|m: int|
            0 <= m < rest.len() && #[trigger] rest[m] != DeliveryEvent::InFlight && ({
                let step = step_after_all(DeliveryStep::Post, rest.take(m));
                step == DeliveryStep::Flush || step == DeliveryStep::PollFlush
            });
        assert(events.take(m) =~= rest.take(m));
        assert(events[m] == rest[m]);
    } else {
        assert(events[n] == events.last());
        if before == DeliveryStep::PollFlush {
            lemma_polled_after_flush(rest);
            let k = choose|k: int|
                0 <= k < rest.len() && step_after_all(DeliveryStep::Post, #[trigger] rest.take(k))
                    == DeliveryStep::Flush;
            assert(events.take(k) =~= rest.take(k));
        }
    }
}

proof fn lemma_polled_after_flush(events: Seq<DeliveryEvent>)
    requires
        step_after_all(DeliveryStep::Post, events) == DeliveryStep::PollFlush,
    ensures
        exists|k: int|
            0 <= k < events.len() && step_after_all(DeliveryStep::Post, #[trigger] events.take(k))
                == DeliveryStep::Flush,
    decreases events.len(),
{
    let rest = events.drop_last();
    let before = step_after_all(DeliveryStep::Post, rest);
    assert(events.take(rest.len() as int) =~= rest);
    if before == DeliveryStep::PollFlush {
        lemma_polled_after_flush(rest);
        let k = choose|k: int|
            0 <= k < rest.len() && step_after_all(DeliveryStep::Post, #[trigger] rest.take(k))
                == DeliveryStep::Flush;
        assert(events.take(k) =~= rest.take(k));
    }
}

/// What a collective operation waits for next.
#[derive(Debug, Clone, Copy, PartialEq, Eq, Structural)]
pub enum CollectiveStep {
    /// The transport is to be progressed, and the status to be read again.
    Progress,
    /// The operation is complete and its request to be released.
    Finalize,
}

/// Decide how a posted collective operation goes on, by whether its status
/// reads complete.
pub fn collective_next(complete: bool) -> (step: CollectiveStep)
    ensures
        step == CollectiveStep::Finalize <==> complete,
{
    if complete {
        CollectiveStep::Finalize
    } else {
        CollectiveStep::Progress
    }
}

} // verus!
