use paros_sim::faults::{StorageFaults, WritePathRates};
use paros_sim::hooks::{BuggifyHooks, MessageKind, Seam, Site};
use paros_sim::matchmaker::DurableMatchmakerStorage;
use paros_sim::quorum::{grid_layouts, QuorumPolicy, QuorumSystem};
use paros_sim::records::{
    AppState, Ballot, ChunkSize, Entry, MustSync, SlotCase, CaseFamily, StorageError,
};
use paros_sim::rot::{RotCoins, RotDraws};
use paros_sim::stage::CommandKind;
use paros_sim::storage::DurableStorage;
use paros_sim::world::StorageWorld;
use paros_sim::writes::{SyncCoins, WriteCoins};

const CALM: WriteCoins = WriteCoins {
    fires: false,
    persisted: false,
};

const CALM_SYNC: SyncCoins = SyncCoins {
    force_torn: false,
    fails: false,
    persisted: false,
    torn: false,
    torn_entry_faulty: false,
};

fn app(count: u64) -> AppState {
    AppState {
        applied_count: count,
        chain_hash: 1000 + count,
        blob: vec![count as u8; 20],
    }
}

fn entry(slot: u64) -> Entry {
    Entry {
        ballot: Ballot { round: 1, node: 0 },
        command: vec![slot as u8],
        digest: slot,
    }
}

fn quiet() -> StorageFaults {
    StorageFaults::new(0, false, WritePathRates::defaults())
}

fn live() -> StorageFaults {
    StorageFaults::new(1_000, true, WritePathRates::defaults())
}

fn primed(nodes: u64, slots: u64) -> StorageWorld {
    let mut world = StorageWorld::new(ChunkSize::new(4).unwrap(), 8, app(0));
    world.set_cluster_size(nodes as usize);
    for key in 0..nodes {
        let mut store = DurableStorage::open(&world, key, key, quiet());
        for slot in 0..slots {
            store.append_accepted(&mut world, 0, slot, entry(slot), CALM);
            store.apply(&mut world, 0, slot, slot, CommandKind::User, app(slot + 1), CALM);
        }
        store.set_chosen_index(&mut world, 0, slots - 1, CALM);
        store.sync_with(&mut world, 0, MustSync::Sync, CALM_SYNC, 0);
    }
    world
}

#[test]
fn a_flush_touches_its_own_records_alone() {
    let mut world = primed(3, 3);
    let mut store = DurableStorage::open(&world, 1, 1, quiet());
    store.append_accepted(&mut world, 0, 1, entry(9), CALM);
    store.sync_with(&mut world, 0, MustSync::Sync, CALM_SYNC, 0);
    let own = world.disks.get(1).unwrap();
    assert_eq!(own.accepted.get(1).unwrap().digest, 9);
    assert_eq!(own.accepted.get(0).unwrap().digest, 0);
    assert_eq!(own.accepted.get(2).unwrap().digest, 2);
    for other in [0, 2] {
        let disk = world.disks.get(other).unwrap();
        assert_eq!(disk.accepted.get(1).unwrap().digest, 1);
    }
}

#[test]
fn the_promise_and_the_floor_never_lower() {
    let mut world = primed(3, 4);
    let mut store = DurableStorage::open(&world, 0, 0, quiet());
    store.persist_ballot(&mut world, 0, Ballot { round: 7, node: 1 }, CALM);
    store.truncate(&mut world, 0, 3, Vec::new(), CALM);
    store.sync_with(&mut world, 0, MustSync::Sync, CALM_SYNC, 0);
    store.persist_ballot(&mut world, 0, Ballot { round: 2, node: 0 }, CALM);
    store.truncate(&mut world, 0, 1, Vec::new(), CALM);
    let written = store.sync_with(&mut world, 0, MustSync::Sync, CALM_SYNC, 0);
    assert!(written.report.unwrap().floor_behind_chosen);
    let disk = world.disks.get(0).unwrap();
    assert_eq!(disk.hard_state.max_promised_ballot, Ballot { round: 7, node: 1 });
    assert_eq!(disk.first_slot, 3);
}

#[test]
fn a_floor_past_the_chosen_index_is_told() {
    let mut world = primed(3, 2);
    let mut store = DurableStorage::open(&world, 0, 0, quiet());
    store.truncate(&mut world, 0, 9, Vec::new(), CALM);
    let written = store.sync_with(&mut world, 0, MustSync::Sync, CALM_SYNC, 0);
    assert!(!written.report.unwrap().floor_behind_chosen);
}

/// The coins that the bits of `n` spell.
fn coins(n: u32) -> RotCoins {
    let bit = |i: u32| n & (1 << i) != 0;
    RotCoins {
        entry: bit(0),
        entry_last: bit(1),
        entry_id: bit(2),
        entry_block: bit(3),
        lost_write: bit(4),
        lost_write_last: bit(5),
        misdirect: bit(6),
        misdirect_last: bit(7),
        snapshot: bit(8),
        promise: bit(9),
        promise_both: bit(10),
        promise_second: bit(11),
        meta: bit(12),
        snap_chunk: bit(13),
        read_eio: bit(14),
    }
}

#[test]
fn boot_rot_keeps_the_run_winnable_whatever_the_coins() {
    for n in 0..2_048_u32 {
        let spread = n.wrapping_mul(2_654_435_761) >> 8;
        let draws = RotDraws {
            entry_pick: u64::from(spread),
            entry_width: 2 + u64::from(spread % 7),
            lost_write_pick: u64::from(spread >> 3),
            misdirect_pick: u64::from(spread >> 5),
            meta_kind: u64::from(spread >> 2),
            chunks: 1 + u64::from(spread % 16),
            chunk_first: u64::from(spread >> 4),
            read_kind: u64::from(spread >> 6),
            read_pick: u64::from(spread >> 1),
        };
        let mut world = primed(3, 4);
        for key in 0..3 {
            world.roll_boot_rot_with(key, key, coins(spread.rotate_left(key as u32 * 7)), draws);
            assert!(world.clean_quorum_everywhere());
            assert!(world.parked_nodes().len() <= world.dead_budget());
        }
    }
}

#[test]
fn a_failing_disk_keeps_the_run_winnable() {
    let mut world = primed(3, 4);
    for n in 0..200_u64 {
        let key = n % 3;
        let mut store = DurableStorage::open(&world, key, key, live());
        let fires = WriteCoins {
            fires: n % 2 == 0,
            persisted: n % 5 == 0,
        };
        store.append_accepted(&mut world, 1, n % 6, entry(n % 6), fires);
        let sync = SyncCoins {
            force_torn: n % 7 == 0,
            fails: n % 3 == 1,
            persisted: n % 4 == 0,
            torn: true,
            torn_entry_faulty: n % 2 == 1,
        };
        store.sync_with(&mut world, 1, MustSync::Sync, sync, n);
        assert!(world.clean_quorum_everywhere());
    }
    assert!(!world.injected.is_empty());
}

#[test]
fn no_sync_fails_outside_the_window() {
    let mut world = primed(3, 2);
    let mut store = DurableStorage::open(&world, 0, 0, live());
    store.append_accepted(&mut world, 1_000, 0, entry(0), CALM);
    let all = SyncCoins {
        force_torn: true,
        fails: true,
        persisted: true,
        torn: true,
        torn_entry_faulty: true,
    };
    assert!(store.sync_with(&mut world, 1_000, MustSync::Sync, all, 0).result.is_ok());
    assert!(world.injected.is_empty());
    assert!(world.corruptions.is_empty());
}

#[test]
fn a_corrupt_record_is_never_dropped() {
    let mut world = primed(3, 3);
    world.corpus_corrupt_entry(0, 0, 1);
    let mut store = DurableStorage::open(&world, 0, 0, quiet());
    let clean = SlotCase {
        verdict: None,
        family: CaseFamily::Other,
    };
    let corrupt = SlotCase {
        verdict: Some(paros_sim::records::CorruptionVerdict::Corrupted),
        family: CaseFamily::IdentifierLostWithEntry,
    };
    let scanned = store.boot_scan(&mut world, &vec![clean, corrupt, clean]);
    assert!(matches!(scanned.result, Err(StorageError::Corruption { .. })));
    assert_eq!(world.disks.get(0).unwrap().accepted.len(), 3);
}

#[test]
fn a_snapshot_strands_slots_only_with_its_last_custodian() {
    let mut world = primed(3, 4);
    world.set_unbudgeted();
    for key in 0..3 {
        let mut store = DurableStorage::open(&world, key, key, quiet());
        store.truncate(&mut world, 0, 4, Vec::new(), CALM);
        store.sync_with(&mut world, 0, MustSync::Sync, CALM_SYNC, 0);
    }
    for key in 0..2 {
        assert!(world.corpus_corrupt_snapshot(key, key));
        assert!(world.unrecoverable_slots().is_empty());
    }
    assert!(world.corpus_corrupt_snapshot(2, 2));
    assert_eq!(world.unrecoverable_slots().len(), 4);
}

#[test]
fn every_policy_runs_a_sound_system() {
    let mut policies = vec![QuorumPolicy::Majority];
    for q2 in 0..5 {
        policies.push(QuorumPolicy::Flexible { q2 });
    }
    for (rows, cols) in grid_layouts(6) {
        policies.push(QuorumPolicy::Grid { rows, cols });
    }
    for policy in policies {
        for n in 1..=9 {
            let system = policy.system(n);
            assert!(system.admits(n));
            if let QuorumSystem::Grid { rows, cols } = system {
                assert_eq!(rows * cols, n);
            } else {
                let (q1, q2) = (system.phase1_quorum_size(n), system.phase2_quorum_size(n));
                assert!(q1 + q2 > n);
            }
        }
        for floor in 1..=6 {
            let copies = policy.clean_copies(floor, 9);
            for n in floor..=9 {
                assert!(floor - copies.min(floor) <= policy.tolerated_loss(n));
            }
        }
    }
}

#[test]
fn a_watermark_never_lowers_and_prunes_below_it() {
    let ballot = |round: u64| Ballot { round, node: 100 };
    let mut world = primed(3, 1);
    let mut store = DurableMatchmakerStorage::restore(&world, 9, quiet(), 3);
    for round in 1..4 {
        store.register(ballot(round), vec![round as u8]);
    }
    store.set_gc_watermark(ballot(2));
    store.set_gc_watermark(ballot(1));
    store.sync(&mut world, 0, false);
    let rebooted = DurableMatchmakerStorage::restore(&world, 9, quiet(), 3);
    assert_eq!(rebooted.initial_state().gc_watermark, ballot(2));
    assert_eq!(rebooted.registered_ballots(), vec![ballot(2), ballot(3)]);
}

#[test]
fn no_hook_is_a_certainty() {
    let hooks = BuggifyHooks::with_bias(1, true, 10);
    for site in [
        Site::Crash(Seam::BeforeSync),
        Site::SkipAcceptResend,
        Site::Drop(MessageKind::Prepare),
        Site::Duplicate(MessageKind::Commit),
        Site::HandoffTarget,
    ] {
        assert!(hooks.odds(0, site).unwrap() < 1000);
        assert_eq!(hooks.odds(1, site), None);
    }
}
