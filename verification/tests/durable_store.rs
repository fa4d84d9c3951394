use paros_sim::disk::{RecordHealth, SlotHealth};
use paros_sim::faults::{StorageFaults, WritePathRates};
use paros_sim::records::{
    AppState, Ballot, CaseFamily, ChunkSize, CorruptionVerdict, Entry, IntegrityFault,
    MetadataFault, MustSync, SealedSession, Session, SlotCase, StorageError, StorageRecord,
    WitnessStatus, WriteOutcome,
};
use paros_sim::scan::ScanApp;
use paros_sim::stage::CommandKind;
use paros_sim::storage::DurableStorage;
use paros_sim::world::{CorruptionKind, CorruptionOutcome, InjectedFaultKind, Sighting, StorageWorld};
use paros_sim::writes::{SyncCoins, WriteCoins};

const CALM: WriteCoins = WriteCoins {
    fires: false,
    persisted: false,
};

const CALM_SYNC: SyncCoins = SyncCoins {
    force_torn: false,
    fails: false,
    persisted: false,
    torn: false,
    torn_entry_faulty: false,
};

fn app(count: u64) -> AppState {
    AppState {
        applied_count: count,
        chain_hash: 1000 + count,
        blob: vec![count as u8; 10],
    }
}

fn entry(slot: u64) -> Entry {
    Entry {
        ballot: Ballot { round: 1, node: 0 },
        command: vec![slot as u8, 7],
        digest: 40 + slot,
    }
}

fn world() -> StorageWorld {
    let mut world = StorageWorld::new(ChunkSize::new(4).unwrap(), 8, app(0));
    assert!(world.set_cluster_size(3));
    world
}

fn quiet() -> StorageFaults {
    StorageFaults::new(0, false, WritePathRates::defaults())
}

fn live() -> StorageFaults {
    StorageFaults::new(1_000, true, WritePathRates::defaults())
}

fn clean_case() -> SlotCase {
    SlotCase {
        verdict: None,
        family: CaseFamily::Other,
    }
}

/// Give `key` clean accepted records at the first `slots` slots.
fn prime(world: &mut StorageWorld, key: u64, slots: u64) {
    let mut store = DurableStorage::open(world, key, key, quiet());
    for slot in 0..slots {
        assert!(store.append_accepted(world, 0, slot, entry(slot), CALM).result.is_ok());
        let next = app(slot + 1);
        let fold = store.apply(world, 0, slot, 40 + slot, CommandKind::User, next, CALM);
        assert!(fold.result.is_ok());
    }
    let synced = store.sync_with(world, 0, MustSync::Sync, CALM_SYNC, 0);
    assert!(synced.result.is_ok());
}

fn primed(slots: u64) -> StorageWorld {
    let mut world = world();
    for key in 0..3 {
        prime(&mut world, key, slots);
    }
    world
}

#[test]
fn a_synced_batch_reads_back_at_the_next_boot() {
    let mut world = world();
    let mut store = DurableStorage::open(&world, 5, 5, quiet());
    store.persist_config_id(&mut world, 0, 3, CALM);
    store.persist_ballot(&mut world, 0, Ballot { round: 4, node: 1 }, CALM);
    store.append_accepted(&mut world, 0, 0, entry(0), CALM);
    store.set_chosen_index(&mut world, 0, 0, CALM);
    let written = store.sync_with(&mut world, 0, MustSync::Sync, CALM_SYNC, 0);
    assert!(written.result.is_ok());
    let report = written.report.unwrap();
    assert_eq!(report.accepted, vec![(0, 40)]);
    assert!(report.floor_behind_chosen);

    let rebooted = DurableStorage::open(&world, 5, 5, quiet());
    let hard = rebooted.initial_state();
    assert_eq!(hard.config_id, 3);
    assert_eq!(hard.max_promised_ballot, Ballot { round: 4, node: 1 });
    assert_eq!(hard.chosen_index, Some(0));
    assert_eq!(rebooted.accepted(0).unwrap().command, vec![0, 7]);
    assert!(rebooted.accepted(1).is_none());
    assert_eq!(rebooted.last_slot(), Some(0));
}

#[test]
fn an_unsynced_write_does_not_survive_a_crash() {
    let mut world = primed(1);
    let mut store = DurableStorage::open(&world, 0, 0, quiet());
    store.append_accepted(&mut world, 0, 1, entry(1), CALM);
    let rebooted = DurableStorage::open(&world, 0, 0, quiet());
    assert!(rebooted.accepted(1).is_none());
    assert!(rebooted.accepted(0).is_some());
}

#[test]
fn a_relaxed_sync_keeps_the_stage() {
    let mut world = world();
    let mut store = DurableStorage::open(&world, 0, 0, quiet());
    store.set_chosen_index(&mut world, 0, 3, CALM);
    assert!(store.relaxed_stage_is_safe());
    let written = store.sync_with(&mut world, 0, MustSync::Relaxed, CALM_SYNC, 0);
    assert!(written.result.is_ok());
    assert!(written.report.is_none());
    assert!(world.disks.get(0).is_none());
    store.append_accepted(&mut world, 0, 0, entry(0), CALM);
    assert!(!store.relaxed_stage_is_safe());
}

#[test]
fn a_failed_write_is_ambiguous_and_recorded() {
    let mut world = primed(2);
    let mut store = DurableStorage::open(&world, 0, 0, live());
    let lost = store.append_accepted(
        &mut world,
        10,
        0,
        entry(0),
        WriteCoins {
            fires: true,
            persisted: false,
        },
    );
    assert_eq!(
        lost.result,
        Err(StorageError::Io {
            record: StorageRecord::Accepted(0),
            outcome: WriteOutcome::Unknown,
        })
    );
    assert_eq!(world.injected.len(), 1);
    assert_eq!(world.injected[0].kind, InjectedFaultKind::WriteEio);
    assert!(!world.injected[0].persisted);
    assert!(world.is_marked(0, 0));
    assert_eq!(world.clean_copies(0), 2);
}

#[test]
fn a_fault_outside_the_window_never_fires() {
    let mut world = primed(2);
    let mut store = DurableStorage::open(&world, 0, 0, live());
    let coins = WriteCoins {
        fires: true,
        persisted: false,
    };
    let written = store.append_accepted(&mut world, 1_000, 0, entry(0), coins);
    assert!(written.result.is_ok());
    let sync = SyncCoins {
        fails: true,
        ..CALM_SYNC
    };
    assert!(store.sync_with(&mut world, 1_000, MustSync::Sync, sync, 0).result.is_ok());
    assert!(world.injected.is_empty());
}

#[test]
fn a_failed_sync_answers_alike_whichever_leg_it_took() {
    for persisted in [false, true] {
        let mut world = primed(2);
        let mut store = DurableStorage::open(&world, 0, 0, live());
        store.append_accepted(&mut world, 10, 0, entry(9), CALM);
        let coins = SyncCoins {
            fails: true,
            persisted,
            ..CALM_SYNC
        };
        let written = store.sync_with(&mut world, 10, MustSync::Sync, coins, 0);
        assert_eq!(
            written.result,
            Err(StorageError::FsyncFailed {
                record: StorageRecord::Batch,
                outcome: WriteOutcome::Unknown,
            })
        );
        let digest = world.disks.get(0).unwrap().accepted.get(0).unwrap().digest;
        assert_eq!(digest, if persisted { 49 } else { 40 });
        assert_eq!(world.is_marked(0, 0), !persisted);
    }
}

#[test]
fn the_budget_refuses_a_fault_that_would_cost_a_quorum() {
    let mut world = primed(2);
    let coins = WriteCoins {
        fires: true,
        persisted: false,
    };
    let mut first = DurableStorage::open(&world, 0, 0, live());
    assert!(first.append_accepted(&mut world, 1, 0, entry(0), coins).result.is_err());
    let mut second = DurableStorage::open(&world, 1, 1, live());
    assert!(second.append_accepted(&mut world, 1, 0, entry(0), coins).result.is_ok());
    assert_eq!(world.injected.len(), 1);
    assert!(world.clean_quorum_everywhere());
}

#[test]
fn a_torn_batch_lands_unwitnessed_and_is_discarded() {
    let mut world = primed(1);
    for key in [1, 2] {
        let mut store = DurableStorage::open(&world, key, key, quiet());
        for slot in 1..3 {
            store.append_accepted(&mut world, 0, slot, entry(slot), CALM);
        }
        store.sync_with(&mut world, 0, MustSync::Sync, CALM_SYNC, 0);
    }
    let mut store = DurableStorage::open(&world, 0, 0, live());
    for slot in 1..3 {
        store.append_accepted(&mut world, 10, slot, entry(slot), CALM);
    }
    assert!(store.tearable_stage(&world));
    let coins = SyncCoins {
        force_torn: true,
        torn_entry_faulty: true,
        ..CALM_SYNC
    };
    let written = store.sync_with(&mut world, 10, MustSync::Sync, coins, 1);
    assert!(written.result.is_err());
    {
        let disk = world.disks.get(0).unwrap();
        assert_eq!(
            disk.slot_health(1),
            SlotHealth {
                entry: RecordHealth::Clean,
                id: WitnessStatus::Absent,
            }
        );
        assert_eq!(
            disk.slot_health(2),
            SlotHealth {
                entry: RecordHealth::Faulty,
                id: WitnessStatus::Absent,
            }
        );
    }
    let torn = world
        .corruptions
        .iter()
        .filter(|c| c.kind == CorruptionKind::TornTail)
        .count();
    assert_eq!(torn, 2);

    let mut rebooted = DurableStorage::open(&world, 0, 0, quiet());
    let records = rebooted.scan_records();
    assert_eq!(records[1], (1, false, WitnessStatus::Absent));
    let tail = SlotCase {
        verdict: Some(CorruptionVerdict::CrashTail),
        family: CaseFamily::Other,
    };
    let scanned = rebooted.boot_scan(&mut world, &vec![clean_case(), tail, tail]);
    assert!(scanned.result.is_ok());
    assert!(world.disks.get(0).unwrap().accepted.get(1).is_none());
    assert!(world
        .corruptions
        .iter()
        .all(|c| c.outcome == CorruptionOutcome::DiscardedTail));
    assert!(world.seen.contains(Sighting::TornTailDiscarded));
}

#[test]
fn a_clean_boot_scans_clean() {
    let mut world = primed(2);
    let mut store = DurableStorage::open(&world, 0, 0, quiet());
    let scanned = store.boot_scan(&mut world, &vec![clean_case(), clean_case()]);
    assert!(scanned.result.is_ok());
    assert_eq!(scanned.app, ScanApp::Untouched);
    assert!(store.faulty_entries().is_empty());
    assert!(store.faulty_snap_chunks().is_empty());
}

#[test]
fn a_rotted_record_with_its_identity_is_reported() {
    let mut world = primed(2);
    assert!(world.corpus_corrupt_entry(0, 0, 0));
    let mut store = DurableStorage::open(&world, 0, 0, quiet());
    assert!(store.accepted(0).is_none());
    let below_tail = SlotCase {
        verdict: Some(CorruptionVerdict::Corrupted),
        family: CaseFamily::CorruptionBelowTail,
    };
    let scanned = store.boot_scan(&mut world, &vec![below_tail, clean_case()]);
    assert!(scanned.result.is_ok());
    assert_eq!(store.faulty_entries(), &vec![(0, Ballot { round: 1, node: 0 })]);
    assert_eq!(world.corruptions[0].outcome, CorruptionOutcome::Reported);
    assert!(world.seen.contains(Sighting::FaultyReported));

    // A clean re-write heals it.
    let mut writer = DurableStorage::open(&world, 0, 0, quiet());
    writer.append_accepted(&mut world, 0, 0, entry(0), CALM);
    writer.sync_with(&mut world, 0, MustSync::Sync, CALM_SYNC, 0);
    assert_eq!(world.corruptions[0].outcome, CorruptionOutcome::Recovered);
    assert!(!world.is_marked(0, 0));
}

#[test]
fn a_record_without_an_identity_crashes_the_node_for_good() {
    let mut world = primed(2);
    let mut disk = world.take_disk(0);
    disk.entry_health.insert(
        1,
        SlotHealth {
            entry: RecordHealth::Misdirected,
            id: WitnessStatus::Faulty,
        },
    );
    world.put_disk(0, disk);
    let mut store = DurableStorage::open(&world, 0, 0, quiet());
    let lost = SlotCase {
        verdict: Some(CorruptionVerdict::Undecidable),
        family: CaseFamily::IdentifierLostWithEntry,
    };
    let scanned = store.boot_scan(&mut world, &vec![clean_case(), lost]);
    assert_eq!(
        scanned.result,
        Err(StorageError::Corruption {
            record: StorageRecord::Accepted(1),
            fault: IntegrityFault::Misdirected,
            verdict: CorruptionVerdict::Undecidable,
        })
    );
    assert!(world.seen.contains(Sighting::IdentifierLost));
}

#[test]
fn both_hard_state_copies_lost_crash_and_one_is_repaired() {
    for both in [false, true] {
        let mut world = primed(1);
        let mut disk = world.take_disk(0);
        disk.promise_health = (
            RecordHealth::Faulty,
            if both {
                RecordHealth::Faulty
            } else {
                RecordHealth::Clean
            },
        );
        world.put_disk(0, disk);
        let mut store = DurableStorage::open(&world, 0, 0, quiet());
        let scanned = store.boot_scan(&mut world, &vec![clean_case()]);
        if both {
            assert_eq!(
                scanned.result,
                Err(StorageError::Corruption {
                    record: StorageRecord::Promise,
                    fault: IntegrityFault::ChecksumMismatch,
                    verdict: CorruptionVerdict::Corrupted,
                })
            );
            assert!(world.is_parked(0));
        } else {
            assert!(scanned.result.is_ok());
            let healed = world.disks.get(0).unwrap().promise_health;
            assert_eq!(healed, (RecordHealth::Clean, RecordHealth::Clean));
            assert!(!world.is_parked(0));
        }
    }
}

#[test]
fn a_read_error_crashes_one_boot_only() {
    let mut world = primed(1);
    let mut disk = world.take_disk(0);
    disk.read_eio = Some(StorageRecord::Snapshot);
    world.put_disk(0, disk);
    let mut first = DurableStorage::open(&world, 0, 0, quiet());
    let scanned = first.boot_scan(&mut world, &vec![clean_case()]);
    assert_eq!(
        scanned.result,
        Err(StorageError::Corruption {
            record: StorageRecord::Snapshot,
            fault: IntegrityFault::ReadError,
            verdict: CorruptionVerdict::Corrupted,
        })
    );
    let mut second = DurableStorage::open(&world, 0, 0, quiet());
    assert!(second.boot_scan(&mut world, &vec![clean_case()]).result.is_ok());
}

#[test]
fn a_fault_of_the_whole_store_surfaces_first() {
    let mut world = primed(1);
    let mut disk = world.take_disk(0);
    disk.meta_fault = Some(MetadataFault::WrongSize);
    disk.read_eio = Some(StorageRecord::Promise);
    world.put_disk(0, disk);
    let mut store = DurableStorage::open(&world, 0, 0, quiet());
    let scanned = store.boot_scan(&mut world, &vec![clean_case()]);
    assert_eq!(
        scanned.result,
        Err(StorageError::Metadata {
            fault: MetadataFault::WrongSize
        })
    );
}

#[test]
fn a_lost_snapshot_is_reset_or_restored_from_the_point() {
    let mut world = primed(3);
    assert!(world.corpus_corrupt_snapshot(0, 0));
    let mut store = DurableStorage::open(&world, 0, 0, quiet());
    let scanned = store.boot_scan(&mut world, &vec![clean_case(); 3]);
    assert!(scanned.result.is_ok());
    assert_eq!(scanned.app, ScanApp::Reset { floor: 0 });
    assert_eq!(store.applied_slot(), None);
    assert!(world.seen.contains(Sighting::SnapshotResetLocal));

    let mut world = primed(3);
    let mut store = DurableStorage::open(&world, 0, 0, quiet());
    store.record_snapshot(2);
    store.set_chosen_index(&mut world, 0, 2, CALM);
    store.truncate(&mut world, 0, 1, Vec::new(), CALM);
    store.sync_with(&mut world, 0, MustSync::Sync, CALM_SYNC, 0);
    assert!(world.corpus_corrupt_snapshot(0, 0));
    let mut store = DurableStorage::open(&world, 0, 0, quiet());
    let scanned = store.boot_scan(&mut world, &vec![clean_case(); 2]);
    assert_eq!(
        scanned.app,
        ScanApp::Restored {
            at: 2,
            floor: 1,
            applied_count: 3,
            chain_hash: 1003,
        }
    );
}

#[test]
fn a_truncation_drops_the_prefix_and_seals_its_sessions() {
    let mut world = primed(3);
    let mut store = DurableStorage::open(&world, 0, 0, quiet());
    let session = Session { client: 1, seq: 2 };
    store.set_chosen_index(&mut world, 0, 2, CALM);
    store.truncate(&mut world, 0, 2, vec![SealedSession { session, slot: 1 }], CALM);
    let written = store.sync_with(&mut world, 0, MustSync::Sync, CALM_SYNC, 0);
    assert_eq!(written.report.unwrap().floor, Some(2));
    let rebooted = DurableStorage::open(&world, 0, 0, quiet());
    assert_eq!(rebooted.first_slot(), 2);
    assert!(rebooted.accepted(1).is_none());
    assert!(rebooted.accepted(2).is_some());
    assert_eq!(rebooted.sealed_sessions(), vec![SealedSession { session, slot: 1 }]);
}

#[test]
fn an_installed_snapshot_lands_with_its_boundary() {
    let mut world = world();
    let mut store = DurableStorage::open(&world, 0, 0, quiet());
    let state = app(6);
    assert!(DurableStorage::install_at_boundary(5, &state));
    assert!(!DurableStorage::install_at_boundary(6, &state));
    assert!(store.install_does_not_regress(&state));
    let ballot = Ballot { round: 2, node: 1 };
    let written = store.install_snapshot(&mut world, 0, 5, ballot, Some(state), Vec::new(), CALM);
    assert!(written.result.is_ok());
    let synced = store.sync_with(&mut world, 0, MustSync::Sync, CALM_SYNC, 0);
    let report = synced.report.unwrap();
    assert_eq!(report.landing, Some(5));
    assert_eq!(report.installed, Some((6, 1006)));
    let rebooted = DurableStorage::open(&world, 0, 0, quiet());
    assert_eq!(rebooted.first_slot(), 6);
    assert_eq!(rebooted.applied_slot(), Some(5));
    assert_eq!(rebooted.snapshot(), vec![6u8; 10]);
}

#[test]
fn a_stage_lists_what_its_next_flush_covers() {
    let mut world = world();
    let mut store = DurableStorage::open(&world, 0, 0, quiet());
    assert!(store.stage.is_idle());
    store.append_accepted(&mut world, 0, 4, entry(4), CALM);
    store.persist_ballot(&mut world, 0, Ballot { round: 1, node: 0 }, CALM);
    store.set_chosen_index(&mut world, 0, 4, CALM);
    store.apply(&mut world, 0, 0, 40, CommandKind::User, app(1), CALM);
    assert_eq!(
        store.stage.staged_records(),
        vec![
            StorageRecord::Promise,
            StorageRecord::Accepted(4),
            StorageRecord::ChosenIndex,
            StorageRecord::Application(0),
        ]
    );
    store.sync_with(&mut world, 0, MustSync::Sync, CALM_SYNC, 0);
    assert!(store.stage.is_idle());
}

#[test]
fn an_undecodable_snapshot_is_a_mismatch() {
    let mut world = world();
    let mut store = DurableStorage::open(&world, 0, 0, quiet());
    let written = store.install_snapshot(
        &mut world,
        0,
        5,
        Ballot { round: 2, node: 1 },
        None,
        Vec::new(),
        CALM,
    );
    assert_eq!(
        written.result,
        Err(StorageError::Corruption {
            record: StorageRecord::Snapshot,
            fault: IntegrityFault::ChecksumMismatch,
            verdict: CorruptionVerdict::Corrupted,
        })
    );
}

#[test]
fn a_replayed_slot_is_skipped() {
    let mut world = primed(2);
    let mut store = DurableStorage::open(&world, 0, 0, quiet());
    assert!(store.already_applied(1));
    assert!(!store.already_applied(2));
    assert_eq!(store.expected_slot(), 2);
    store.apply(&mut world, 0, 1, 41, CommandKind::User, app(9), CALM);
    assert_eq!(store.applied_slot(), Some(1));
}

#[test]
fn chunks_are_read_rotted_and_repaired() {
    let mut world = primed(3);
    let mut store = DurableStorage::open(&world, 0, 0, quiet());
    store.record_snapshot(2);
    assert_eq!(store.latest_snap_point(&world), Some(2));
    store.set_chosen_index(&mut world, 0, 2, CALM);
    store.sync_with(&mut world, 0, MustSync::Sync, CALM_SYNC, 0);
    assert_eq!(store.snap_chunk_count(&world, 2), Some(3));
    assert_eq!(store.read_snap_chunk(&world, 2, 2), Some(vec![3, 3]));
    let whole: Vec<u8> = (0..3)
        .flat_map(|chunk| store.read_snap_chunk(&world, 2, chunk).unwrap())
        .collect();
    assert_eq!(whole, store.snapshot());
    assert!(world.corpus_corrupt_snap_chunk(0, 0, 2));
    assert!(!world.corpus_corrupt_snap_chunk(0, 0, 2));
    assert!(!world.corpus_corrupt_snap_chunk(0, 0, 3));
    assert_eq!(store.read_snap_chunk(&world, 2, 2), None);
    assert_eq!(store.read_snap_chunk(&world, 2, 0), Some(vec![3, 3, 3, 3]));
    assert!(!store.chunk_matches(&world, 2, 2, &vec![3, 4]));
    assert!(!store.write_snap_chunk(&mut world, 2, 2, &vec![3, 4]));
    assert!(store.write_snap_chunk(&mut world, 2, 2, &vec![3, 3]));
    assert_eq!(store.read_snap_chunk(&world, 2, 2), Some(vec![3, 3]));
    assert_eq!(world.corruptions[0].outcome, CorruptionOutcome::Recovered);
}

#[test]
fn a_point_is_staged_only_where_it_is_ahead() {
    let mut world = primed(3);
    let mut store = DurableStorage::open(&world, 0, 0, quiet());
    store.record_snapshot(2);
    store.set_chosen_index(&mut world, 0, 2, CALM);
    store.sync_with(&mut world, 0, MustSync::Sync, CALM_SYNC, 0);
    assert_eq!(store.restore_from_snap_point(&world), None);
    store.application = app(0);
    assert_eq!(store.restore_from_snap_point(&world), Some(2));
    assert_eq!(store.applied_slot(), Some(2));
}

#[test]
fn a_drawn_sync_flushes_like_the_exact_one() {
    let mut world = world();
    let mut store = DurableStorage::open(&world, 0, 0, quiet());
    store.append_accepted(&mut world, 0, 0, entry(0), CALM);
    assert!(store.sync(&mut world, 0, MustSync::Sync, CALM_SYNC).result.is_ok());
    assert!(world.disks.get(0).unwrap().holds_clean(0));
}

#[test]
fn a_chunk_size_is_never_zero() {
    assert!(ChunkSize::new(0).is_none());
    assert_eq!(ChunkSize::new(4).unwrap().snap_chunk_count(10), 3);
    assert_eq!(ChunkSize::new(4).unwrap().snap_chunk_count(0), 0);
}
