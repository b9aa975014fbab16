# gups

A verified core for the GUPS (Giga Updates Per Second) benchmark, and the
program around it.

The benchmark updates a large table at places that a 64-bit linear feedback
shift register selects. Each update combines one slot with the datum that
selected it by exclusive or. The table is split evenly over the processes of a
job. A process makes the updates of its own segment in memory and hands the
others to their owners. Afterwards the streams are replayed to count the slots
that do not hold the expected value.

## Layout

- `src/bits.rs`, `src/register.rs`: words as polynomials over the two-element
  field, steps of the register, squaring, and the period of the stream
- `src/rng.rs`: one step, and the jump to any position of the stream
- `src/table.rs`: the local segment and its updates
- `src/routing.rs`: which process owns the slot of a datum
- `src/phase.rs`: the update phase of one process
- `src/verify.rs`: the count of wrong slots
- `src/history.rs`: updates in any order, and what verification finds after them
- `src/sizing.rs`, `src/plan.rs`: sizes of the table, its segments and the run
- `src/text.rs`, `src/environment.rs`, `src/cli.rs`: memory report, job size,
  server address and command line
- `src/comm.rs`, `src/oob.rs`: published addresses, delivery of remote updates,
  and the out-of-band allgather
- `app/`: the program: input and output, timing, PMIx, UCX and UCC

## Usage

```text
gups [options]
  -t, --table-size SIZE    Table size as power of 2 (default: auto, half of RAM)
  -u, --updates COUNT      Number of updates (default: 4x table size)
  --single                 Single-process mode (no UCX)
  -h, --help               Help
```

`gups --single` runs one process. Under a process manager, as in
`prterun -np 2 gups -t 24`, the processes of the job run together; their number
is a power of two. The program needs the `pmix`, `ucx_sys` and `ucc` crates for
that mode.
