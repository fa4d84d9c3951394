use paros_sim::faults::{StorageFaults, WritePathRates};
use paros_sim::records::{
    AppState, Ballot, CaseFamily, ChunkSize, Entry, MustSync, SlotCase, StorageRecord,
};
use paros_sim::rot::{RotCoins, RotDraws, RotRates};
use paros_sim::stage::CommandKind;
use paros_sim::storage::DurableStorage;
use paros_sim::world::{
    CorruptionKind, CorruptionOutcome, InjectedFault, InjectedFaultKind, StorageWorld,
};
use paros_sim::writes::{SyncCoins, WriteCoins};

const CALM: WriteCoins = WriteCoins {
    fires: false,
    persisted: false,
};

const CALM_SYNC: SyncCoins = SyncCoins {
    force_torn: false,
    fails: false,
    persisted: false,
    torn: false,
    torn_entry_faulty: false,
};

fn app(count: u64) -> AppState {
    AppState {
        applied_count: count,
        chain_hash: 1000 + count,
        blob: vec![count as u8; 10],
    }
}

fn entry(slot: u64) -> Entry {
    Entry {
        ballot: Ballot { round: 1, node: 0 },
        command: vec![slot as u8],
        digest: slot,
    }
}

fn quiet() -> StorageFaults {
    StorageFaults::new(0, false, WritePathRates::defaults())
}

fn primed(nodes: usize, slots: u64) -> StorageWorld {
    let mut world = StorageWorld::new(ChunkSize::new(4).unwrap(), 8, app(0));
    world.set_cluster_size(nodes);
    for key in 0..nodes as u64 {
        let mut store = DurableStorage::open(&world, key, key, quiet());
        for slot in 0..slots {
            store.append_accepted(&mut world, 0, slot, entry(slot), CALM);
            store.apply(&mut world, 0, slot, slot, CommandKind::User, app(slot + 1), CALM);
        }
        store.sync_with(&mut world, 0, MustSync::Sync, CALM_SYNC, 0);
    }
    world
}

fn no_rot() -> RotCoins {
    RotCoins {
        entry: false,
        entry_last: false,
        entry_id: false,
        entry_block: false,
        lost_write: false,
        lost_write_last: false,
        misdirect: false,
        misdirect_last: false,
        snapshot: false,
        promise: false,
        promise_both: false,
        promise_second: false,
        meta: false,
        snap_chunk: false,
        read_eio: false,
    }
}

fn draws() -> RotDraws {
    RotDraws {
        entry_pick: 0,
        entry_width: 3,
        lost_write_pick: 0,
        misdirect_pick: 0,
        meta_kind: 0,
        chunks: 1,
        chunk_first: 0,
        read_kind: 0,
        read_pick: 0,
    }
}

#[test]
fn the_first_caller_fixes_the_cluster_size_and_the_lanes() {
    let mut world = StorageWorld::new(ChunkSize::new(4).unwrap(), 8, app(0));
    assert!(world.set_cluster_size(5));
    assert!(!world.set_cluster_size(3));
    assert_eq!(world.quorum(), 3);
    assert_eq!(world.dead_budget(), 2);
    assert_eq!(world.lane_count(), 8);
    world.set_lane_count(2, app(0));
    world.set_lane_count(9, app(0));
    assert_eq!(world.lane_count(), 2);
}

#[test]
fn a_permitted_fault_marks_only_what_it_lost() {
    let mut world = primed(3, 2);
    let fault = InjectedFault {
        node: 0,
        record: StorageRecord::Batch,
        kind: InjectedFaultKind::FsyncFailed,
        persisted: true,
    };
    assert!(world.permit_and_record(0, fault, &vec![0]));
    assert!(!world.is_marked(0, 0));
    let lost = InjectedFault {
        persisted: false,
        ..fault
    };
    assert!(world.permit_and_record(0, lost, &vec![0]));
    assert!(world.is_marked(0, 0));
    // The last clean record of a node is never suppressed.
    assert!(!world.permit_and_record(0, lost, &vec![1]));
    assert_eq!(world.injected.len(), 2);
}

#[test]
fn the_dead_node_budget_keeps_a_quorum_live() {
    let mut world = primed(3, 1);
    assert!(world.may_park(0));
    world.park(0, 7);
    assert!(world.parked_nodes().contains(0));
    assert!(world.may_park(0));
    assert!(!world.may_park(1));
    assert_eq!(world.parked_count_excluding(0), 0);
    assert_eq!(world.parked_count_excluding(1), 1);
}

#[test]
fn a_targeted_corruption_is_budgeted_and_parks_its_node() {
    let mut world = primed(3, 2);
    assert!(!world.corrupt(0, 0, StorageRecord::Accepted(7)));
    assert!(!world.corrupt(0, 0, StorageRecord::Batch));
    assert!(world.corrupt(0, 0, StorageRecord::Promise));
    assert_eq!(world.corruptions[0].kind, CorruptionKind::PromiseCopy);
    assert!(world.is_parked(0));
    assert!(!world.corrupt(1, 1, StorageRecord::Snapshot));
}

#[test]
fn boot_rot_fires_only_the_families_tossed() {
    let mut world = primed(3, 4);
    world.roll_boot_rot_with(0, 0, no_rot(), draws());
    assert!(world.corruptions.is_empty());
    let coins = RotCoins {
        entry: true,
        entry_last: true,
        ..no_rot()
    };
    world.roll_boot_rot_with(0, 0, coins, draws());
    assert_eq!(world.corruptions.len(), 1);
    assert_eq!(world.corruptions[0].record, StorageRecord::Accepted(3));
    assert_eq!(world.corruptions[0].kind, CorruptionKind::BitFlip);
    assert!(world.clean_quorum_everywhere());
}

#[test]
fn a_block_fault_spans_neighbouring_records() {
    let mut world = primed(5, 6);
    let coins = RotCoins {
        entry: true,
        entry_last: true,
        entry_block: true,
        ..no_rot()
    };
    world.roll_boot_rot_with(0, 0, coins, draws());
    assert_eq!(world.corruptions.len(), 3);
    assert!(world.corruptions.iter().all(|c| c.block));
    assert!(world.clean_quorum_everywhere());
}

#[test]
fn both_promise_copies_rot_only_within_the_dead_budget() {
    let coins = RotCoins {
        promise: true,
        promise_both: true,
        ..no_rot()
    };
    let mut world = primed(3, 1);
    world.roll_boot_rot_with(0, 0, coins, draws());
    assert!(world.is_parked(0));
    world.roll_boot_rot_with(1, 1, coins, draws());
    assert!(!world.is_parked(1));
}

#[test]
fn a_restore_rolls_rot_only_inside_the_window() {
    let mut world = primed(3, 2);
    let coins = RotCoins {
        snapshot: true,
        ..no_rot()
    };
    let faults = StorageFaults::new(1_000, true, WritePathRates::defaults());
    DurableStorage::restore(&mut world, 0, 0, faults, 1_000, coins);
    assert!(world.corruptions.is_empty());
    DurableStorage::restore(&mut world, 0, 0, faults, 999, coins);
    assert_eq!(world.corruptions.len(), 1);
    assert_eq!(world.corruptions[0].record, StorageRecord::Snapshot);
}

#[test]
fn rot_rates_are_capped_at_one_half() {
    let one = RotRates {
        entry: 1,
        lost_write: 1,
        misdirect: 1,
        snapshot: 1,
        promise: 1,
        meta: 1,
        read_eio: 1,
        snap_chunk: 1,
    };
    let base = RotRates::from_multipliers(one);
    assert_eq!(base.entry, 60);
    assert_eq!(base.meta, 30);
    assert!(!base.any_dense());
    let dense = RotRates::from_multipliers(RotRates { entry: 9, ..one });
    assert_eq!(dense.entry, 500);
    assert!(dense.any_dense());
    assert_eq!(RotRates::for_boot(), base);
}

#[test]
fn drawn_rot_stays_in_range() {
    let drawn = RotDraws::draw();
    assert_eq!(drawn.entry_width, 3);
    assert_eq!(drawn.chunks, 1);
    // Two draws of one stream are two numbers, whatever the stream.
    assert_ne!((drawn.entry_pick, drawn.read_pick), (drawn.read_pick, drawn.entry_pick));
}

#[test]
fn write_rates_default_where_the_knobs_are_idle() {
    assert_eq!(WritePathRates::draw(), WritePathRates::defaults());
    assert!(!WritePathRates::defaults().dense_failures());
    assert!(!WritePathRates::defaults().shaped_tails());
    let eager = WritePathRates {
        write_eio: 8,
        torn_tail: 25,
        ..WritePathRates::defaults()
    };
    assert!(eager.dense_failures());
    assert!(eager.shaped_tails());
}

#[test]
fn the_gates_hold_the_ledger_to_what_was_detected() {
    let mut world = primed(3, 2);
    assert!(world.check_storage_gates(0, 0, false).sound());
    assert!(world.corrupt(0, 0, StorageRecord::ChosenIndex));
    let mut store = DurableStorage::open(&world, 0, 0, quiet());
    let clean = SlotCase {
        verdict: None,
        family: CaseFamily::Other,
    };
    assert!(store.boot_scan(&mut world, &vec![clean, clean]).result.is_err());
    let verdict = world.check_storage_gates(0, 1, true);
    assert!(verdict.sound());
    assert!(verdict.compound);
    let short = world.check_storage_gates(1, 0, false);
    assert!(!short.faults_surfaced);
    assert!(!short.corruptions_surfaced);
    assert!(!short.sound());
    let stats = world.corruption_stats();
    assert_eq!(stats.crashed, 1);
    assert_eq!(stats.parked, 1);
    assert!(stats.parked_within_budget);
}

#[test]
fn an_unread_injection_must_be_accounted_for() {
    let mut world = primed(3, 2);
    world.corpus_corrupt_entry(0, 0, 0);
    assert!(!world.corruption_stats().accounted);
    world.corruptions[0].outcome = CorruptionOutcome::Recovered;
    assert!(world.corruption_stats().accounted);
}

#[test]
fn a_fault_ledger_tells_its_legs_apart() {
    let mut world = primed(3, 2);
    let fault = InjectedFault {
        node: 0,
        record: StorageRecord::Accepted(0),
        kind: InjectedFaultKind::WriteEio,
        persisted: true,
    };
    world.permit_and_record(0, fault, &vec![0]);
    let stats = world.storage_fault_stats();
    assert_eq!(stats.injected, 1);
    assert!(stats.eio_landed);
    assert!(!stats.eio_lost);
    assert!(!stats.fsync_durable);
    assert!(stats.clean_quorum_everywhere);
}
