use gups::phase::{prepare_single, warm_up, SlotUpdate, UpdatePhase};
use gups::plan::{make_plan, Plan};
use gups::routing::target_process;
use gups::table::{apply_stream, init_table};
use gups::verify::verify_table;

/// Run the update phase of every process, one after the other or with the ranks
/// in turn, and deliver remote updates at once.
fn run(plans: &[Plan], in_turn: bool) -> Vec<Vec<u64>> {
    let mut tables: Vec<Vec<u64>> = Vec::new();
    let mut phases: Vec<UpdatePhase> = Vec::new();
    for plan in plans {
        let mut table = vec![0u64; plan.local_table_size as usize];
        init_table(&mut table, plan.global_start);
        tables.push(table);
        phases.push(UpdatePhase::start(plan));
    }
    let mut live = true;
    while live {
        live = false;
        for p in 0..plans.len() {
            loop {
                let turn = match phases[p].next(&mut tables[p]) {
                    Some(turn) => turn,
                    None => break,
                };
                live = true;
                let update = turn.update;
                assert_eq!(turn.own, update.owner == p);
                if !turn.own {
                    tables[update.owner][update.offset] ^= update.value;
                }
                if in_turn {
                    break;
                }
            }
        }
    }
    tables
}

fn plans(num_procs: u64, table_size: u64, updates: u64) -> Vec<Plan> {
    (0..num_procs).map(|r| make_plan(r, num_procs, table_size, Some(updates))).collect()
}

#[test]
fn two_processes_share_the_updates() {
    let plans = plans(2, 8, 32);
    let tables = run(&plans, false);
    assert_eq!(tables[0], vec![8589934584, 1, 0, 3]);
    assert_eq!(tables[1], vec![0, 5, 6, 7]);
}

#[test]
fn order_of_arrival_is_irrelevant() {
    let plans = plans(4, 16, 4000);
    assert_eq!(run(&plans, true), run(&plans, false));
}

/// Errors that a process finds in `table` as its own segment.
fn errors(plan: &Plan, table: &[u64]) -> u64 {
    verify_table(
        table,
        plan.local_table_size,
        plan.global_start,
        plan.num_procs,
        plan.log_num_procs,
        plan.log_table_size,
        plan.proc_num_updates,
        plan.rank,
    )
}

#[test]
fn distributed_run_verifies() {
    let cases = [(2u64, 4u64, 16u64), (2, 8, 32), (4, 64, 2000), (4, 4, 128), (8, 8, 0)];
    for (num_procs, table_size, updates) in cases {
        let plans = plans(num_procs, table_size, updates);
        for in_turn in [false, true] {
            let mut tables = run(&plans, in_turn);
            for (plan, table) in plans.iter().zip(tables.iter_mut()) {
                assert_eq!(errors(plan, table), 0);
                table[0] ^= 1;
                assert_eq!(errors(plan, table), 1);
            }
        }
    }
}

#[test]
fn slots_of_one_word_verify() {
    let plans = plans(4, 4, 128);
    let tables = run(&plans, true);
    assert_eq!(tables, vec![vec![33114197859868], vec![1], vec![0], vec![3]]);
    for (plan, table) in plans.iter().zip(&tables) {
        assert_eq!(errors(plan, table), 0);
    }
}

#[test]
fn drawn_updates_are_those_that_are_made() {
    let plan = make_plan(1, 4, 64, Some(400));
    let mut made = UpdatePhase::start(&plan);
    let mut drawn = UpdatePhase::start(&plan);
    let mut table = vec![0u64; 16];
    init_table(&mut table, plan.global_start);
    let mut copy = table.clone();
    while let Some(turn) = drawn.draw() {
        assert_eq!(turn.own, turn.update.owner == 1);
        if turn.own {
            copy[turn.update.offset] ^= turn.update.value;
        }
        assert_eq!(made.next(&mut table), Some(turn));
        assert_eq!(table, copy);
        assert_eq!(made, drawn);
    }
    assert_eq!(drawn.iteration, 100);
    assert_eq!(drawn.draw(), None);
    assert_eq!(made.next(&mut table), None);
}

#[test]
fn warm_up_phase_differs_in_its_count() {
    let plan = make_plan(1, 2, 8, Some(640));
    let mut warm = UpdatePhase::start_warm_up(&plan);
    assert_eq!(warm.count, 64);
    let timed = UpdatePhase::start(&plan);
    assert_eq!(timed.count, 320);
    warm.count = timed.count;
    assert_eq!(warm, timed);
}

#[test]
fn warm_up_makes_the_first_updates() {
    // One update in a hundred: 2, 4 and 8.
    let mut table = vec![0u64; 8];
    warm_up(&mut table, 300, 7);
    assert_eq!(table, vec![8, 0, 2, 0, 4, 0, 0, 0]);
    // At least one.
    let mut table = vec![0u64; 8];
    warm_up(&mut table, 0, 7);
    assert_eq!(table, vec![0, 0, 2, 0, 0, 0, 0, 0]);
}

#[test]
fn distributed_run_keeps_every_update() {
    // Exclusive or of all slots: that of the fresh table with all data added.
    let plans = plans(4, 64, 2000);
    let tables = run(&plans, false);
    let found = tables.iter().flatten().fold(0u64, |sum, slot| sum ^ slot);
    let mut expected = (0..64u64).fold(0u64, |sum, slot| sum ^ slot);
    for plan in &plans {
        let mut ran = gups::rng::starts(4 * plan.global_start);
        for _ in 0..plan.proc_num_updates {
            ran = gups::rng::lfsr_step(ran);
            expected ^= ran as u64;
        }
    }
    assert_eq!(found, expected);
}

#[test]
fn turns_say_what_is_left_to_do() {
    let plan = make_plan(0, 2, 8, Some(8));
    let mut phase = UpdatePhase::start(&plan);
    let mut table = vec![0u64; 4];
    init_table(&mut table, 0);
    // Data 2, 4, 8 and 16: the second selects slot 4 of the whole table.
    let first = phase.next(&mut table).unwrap();
    assert!(first.own);
    assert_eq!(first.update, SlotUpdate { owner: 0, offset: 2, value: 2 });
    assert!(first.progress);
    let second = phase.next(&mut table).unwrap();
    assert!(!second.own);
    assert_eq!(second.update, SlotUpdate { owner: 1, offset: 0, value: 4 });
    assert!(!second.progress);
    assert_eq!(table, vec![0, 1, 0, 3]);
    assert!(phase.next(&mut table).is_some());
    assert!(phase.next(&mut table).is_some());
    assert_eq!(table, vec![24, 1, 0, 3]);
    assert!(phase.next(&mut table).is_none());
    assert_eq!(table, vec![24, 1, 0, 3]);
}

#[test]
fn progress_is_due_every_1024_updates() {
    let plan = make_plan(0, 1, 8, Some(3000));
    let mut phase = UpdatePhase::start(&plan);
    let mut table = vec![0u64; 8];
    let mut due = Vec::new();
    let mut k = 0;
    while let Some(turn) = phase.next(&mut table) {
        if turn.progress {
            due.push(k);
        }
        k += 1;
    }
    assert_eq!(due, vec![0, 1024, 2048]);
    assert_eq!(k, 3000);
}

#[test]
fn owner_and_slot_make_the_global_index() {
    let mut ran: i64 = gups::rng::starts(1 << 40);
    for _ in 0..1000 {
        ran = gups::rng::lfsr_step(ran);
        let owner = target_process(ran, 4, 8);
        let slot = ran as u64 & 15;
        assert!(owner < 8);
        assert_eq!(16 * owner + slot, ran as u64 & 127);
    }
    assert_eq!(target_process(-1, 63, 8), 7);
    assert_eq!(target_process(-1, 0, 1), 0);
}

#[test]
fn warm_up_leaves_no_trace() {
    let mut table = vec![55u64; 8];
    let ran = prepare_single(&mut table, 1_000_000, 7);
    assert_eq!(ran, 1);
    assert_eq!(table, vec![0, 1, 2, 3, 4, 5, 6, 7]);
    apply_stream(&mut table, ran, 100, 7);
    assert_eq!(verify_table(&table, 8, 0, 1, 0, 3, 100, 0), 0);
}
