use paros_sim::disk::NodeDisk;
use paros_sim::faults::{StorageFaults, WritePathRates};
use paros_sim::hooks::{BuggifyHooks, MessageKind, ReplyKind, Seam, Site};
use paros_sim::lifecycle::{Op, Queue};
use paros_sim::matchmaker::DurableMatchmakerStorage;
use paros_sim::names::Names;
use paros_sim::process::{
    BootGate, CorpusNodeProcess, ExitStep, HoldGate, MatchmakerProcess, NodeProcess, RunExit,
};
use paros_sim::protocol_bounds::{
    command, prefix_step, recovery_step, suffix_len, wrong_fingerprint, BoundsAction, BoundsEvent,
    BoundsPhase, BoundsRun, Continuation, Fingerprinted, PromisePage, PromiseWalk, RecoveryChunk,
    RecoveryStep, BOUNDS_CLIENT, CANDIDATE,
};
use paros_sim::records::{
    AppState, Ballot, ChunkSize, StorageError, StorageRecord, WriteOutcome,
};
use paros_sim::registry::MatchmakerScalars;
use paros_sim::roles::Role;
use paros_sim::shape::Registry;
use paros_sim::workload::{
    first_target, next_target, Action, Answer, Attempt, ClientScript, Compaction, Event, Phase,
    WorkloadMode, WriteAck, QUIET_DELAY_STEP_MS,
};
use paros_sim::world::StorageWorld;
use paros_sim::{
    chain_seed_digest, chunk_corpus_canonical_masks, client_channel_config,
    corpus_canonical_masks, default_client_channel_config, KeepAlive, CHAOS_DURATION_MS,
};

fn empty() -> AppState {
    AppState {
        applied_count: 0,
        chain_hash: 0,
        blob: Vec::new(),
    }
}

fn world() -> StorageWorld {
    StorageWorld::new(ChunkSize::new(4).unwrap(), 8, empty())
}

fn ballot(round: u64, node: u64) -> Ballot {
    Ballot { round, node }
}

fn ack(leader: u64, slot: u64) -> Option<WriteAck> {
    Some(WriteAck {
        leader: Some(leader),
        slot: Some(slot),
    })
}

#[test]
fn a_mode_is_spelled_by_its_coins() {
    assert_eq!(WorkloadMode::coins_after(true, false), 4);
    assert_eq!(WorkloadMode::coins_after(false, true), 3);
    assert_eq!(WorkloadMode::coins_after(false, false), 0);
    assert_eq!(QUIET_DELAY_STEP_MS, 250);
    let quiet = WorkloadMode::from_coins(true, false, &vec![true, false, false, true]);
    assert_eq!(quiet, WorkloadMode::Quiet { delay_ms: 9 * 250 });
    let deep = WorkloadMode::from_coins(false, true, &vec![true, true, false]);
    assert_eq!(deep, WorkloadMode::Pipelined { depth: 8 });
    let wrapped = WorkloadMode::from_coins(false, true, &vec![true, true, true]);
    assert_eq!(wrapped, WorkloadMode::Pipelined { depth: 2 });
    let plain = WorkloadMode::from_coins(false, false, &Vec::new());
    assert_eq!(plain, WorkloadMode::Sequential);
}

#[test]
fn an_operation_cycles_until_it_commits() {
    assert_eq!(first_target(7, 3), 1);
    assert_eq!(next_target(2, 3), 0);
    let mut attempt = Attempt::start(1, 3);
    let mut asked = vec![attempt.target];
    for _ in 0..2 {
        let redirected = attempt.answered(Some(Answer {
            seq: 1,
            committed: false,
        }));
        assert!(!redirected.settled && !redirected.misdirected);
        asked.push(attempt.target);
    }
    asked.sort_unstable();
    assert_eq!(asked, vec![0, 1, 2]);
    assert!(!attempt.answered(None).settled);
    let wrong = attempt.answered(Some(Answer {
        seq: 2,
        committed: false,
    }));
    assert!(wrong.misdirected);
    let tries = attempt.tries;
    assert!(
        attempt
            .answered(Some(Answer {
                seq: 1,
                committed: true
            }))
            .settled
    );
    assert_eq!(attempt.tries, tries);
}

#[test]
fn a_sequential_client_alternates_writes_and_reads() {
    let (mut script, action) = ClientScript::start(WorkloadMode::Sequential, 2, 3, false);
    assert_eq!(action, Action::Write { first: 0, end: 1 });
    let wrote = Event::Wrote {
        outcomes: vec![ack(1, 4)],
    };
    let (action, compactions) = script.step(&wrote, false);
    assert_eq!(action, Action::Read { seq: 0 });
    assert_eq!(compactions, vec![Compaction { node: 1, up_to: 4 }]);
    assert_eq!(script.step(&Event::Read { acknowledged: true }, false).0, Action::Gap);
    assert_eq!(
        script.step(&Event::Woke, false).0,
        Action::Write { first: 1, end: 2 }
    );
    let lost = Event::Wrote {
        outcomes: vec![None],
    };
    assert_eq!(script.step(&lost, false).0, Action::Read { seq: 1 });
    script.step(&Event::Read { acknowledged: false }, false);
    assert_eq!(script.step(&Event::Woke, false).0, Action::Settle);
    assert_eq!(script.step(&Event::Woke, false).0, Action::Finish);
    assert_eq!(script.acknowledged, 1);
    assert_eq!(script.reads_acknowledged, 1);
    assert_eq!(script.max_slot, Some(4));
}

#[test]
fn a_pipelined_client_reads_the_last_that_committed() {
    let mode = WorkloadMode::Pipelined { depth: 3 };
    let (mut script, action) = ClientScript::start(mode, 4, 3, false);
    assert_eq!(action, Action::Write { first: 0, end: 3 });
    let (action, compactions) = script.step(
        &Event::Wrote {
            outcomes: vec![ack(0, 9), ack(0, 5), None],
        },
        false,
    );
    assert_eq!(action, Action::Read { seq: 1 });
    // The watermark never falls back to the lower slot.
    assert_eq!(
        compactions,
        vec![
            Compaction { node: 0, up_to: 9 },
            Compaction { node: 0, up_to: 9 }
        ]
    );
    script.step(&Event::Read { acknowledged: true }, false);
    assert_eq!(
        script.step(&Event::Woke, false).0,
        Action::Write { first: 3, end: 4 }
    );
    let (action, none) = script.step(
        &Event::Wrote {
            outcomes: vec![None],
        },
        false,
    );
    assert_eq!(action, Action::Gap);
    assert!(none.is_empty());
    assert_eq!(script.step(&Event::Woke, true).0, Action::Settle);
}

#[test]
fn a_quiet_client_decides_once_and_compacts_nothing() {
    let mode = WorkloadMode::Quiet { delay_ms: 1000 };
    let (mut script, action) = ClientScript::start(mode, 9, 3, false);
    assert_eq!(action, Action::Idle { ms: 1000 });
    assert_eq!(
        script.step(&Event::Woke, false).0,
        Action::Write { first: 0, end: 1 }
    );
    let (action, compactions) = script.step(
        &Event::Wrote {
            outcomes: vec![ack(0, 0)],
        },
        false,
    );
    assert_eq!(action, Action::Idle { ms: 3000 });
    assert!(compactions.is_empty());
    assert_eq!(script.step(&Event::Woke, false).0, Action::Settle);
    assert_eq!(script.step(&Event::Woke, false).0, Action::Finish);
    assert_eq!(script.phase, Phase::Finished);
    assert_eq!(script.acknowledged, 1);
}

#[test]
fn a_compaction_needs_a_leader_the_cluster_has() {
    let (mut script, _) = ClientScript::start(WorkloadMode::Sequential, 1, 3, false);
    let (_, compactions) = script.step(
        &Event::Wrote {
            outcomes: vec![ack(3, 1)],
        },
        false,
    );
    assert!(compactions.is_empty());
}

#[test]
fn the_bounded_suffix_walks_page_by_page() {
    assert_eq!(suffix_len(4), 10);
    let one = command(3);
    assert_eq!(one.client, BOUNDS_CLIENT);
    let mut run = BoundsRun::start(4, 4, ballot(2, 1));
    assert_eq!(run.action(), BoundsAction::Prepare { from_slot: 0 });
    for (entries, next) in [(4, Some(4)), (4, Some(8)), (2, None)] {
        run.step(BoundsEvent::Page {
            page: Some(PromisePage { entries, next }),
        });
        assert_eq!(run.action(), BoundsAction::DeliverPage);
        if let Some(next) = next {
            run.step(BoundsEvent::Asked {
                continuation: Some(Continuation {
                    from: CANDIDATE,
                    ballot: ballot(2, 1),
                    from_slot: next,
                }),
            });
            assert_eq!(run.action(), BoundsAction::Prepare { from_slot: next });
        }
    }
    let chunk = |started, remaining| {
        Some(RecoveryChunk {
            started,
            gap_fills: 0,
            remaining,
        })
    };
    run.step(BoundsEvent::Elected {
        leads: true,
        recovery: chunk(4, 6),
    });
    assert!(run.suffix_paged);
    assert_eq!(run.action(), BoundsAction::AdvanceRecovery);
    run.step(BoundsEvent::Recovered {
        recovery: chunk(4, 2),
    });
    run.step(BoundsEvent::Recovered {
        recovery: chunk(2, 0),
    });
    assert!(run.recovery_paged);
    assert_eq!(run.action(), BoundsAction::BuildGapped);
    run.step(BoundsEvent::Released {
        writes: 5,
        chosen: Some(3),
    });
    assert_eq!(run.action(), BoundsAction::AdvanceGapped);
    run.step(BoundsEvent::Released {
        writes: 5,
        chosen: Some(9),
    });
    assert!(run.release_paged);
    assert_eq!(run.action(), BoundsAction::BuildNacked);
    run.step(BoundsEvent::Nacked {
        rejected: ballot(1, 1),
        following: ballot(2, 1),
    });
    assert_eq!(run.action(), BoundsAction::BuildStale);
    run.step(BoundsEvent::Staled { follows: true });
    assert_eq!(run.action(), BoundsAction::BuildProposer);
    run.step(BoundsEvent::Fingerprinted {
        proposal: Some(Fingerprinted {
            slot: 0,
            other: 5,
            admitted: 6,
            after_mismatch: None,
            after_match: Some(0),
        }),
    });
    assert_eq!(run.action(), BoundsAction::Finish);
    let clean = BoundsRun::start(4, 4, ballot(2, 1)).violations;
    assert_eq!(run.violations, clean);
}

#[test]
fn every_broken_bound_is_told() {
    let mut run = BoundsRun::start(4, 4, ballot(2, 1));
    run.step(BoundsEvent::Page {
        page: Some(PromisePage {
            entries: 5,
            next: Some(5),
        }),
    });
    assert!(run.violations.page);
    run.step(BoundsEvent::Asked {
        continuation: Some(Continuation {
            from: CANDIDATE,
            ballot: ballot(2, 1),
            from_slot: 6,
        }),
    });
    assert!(run.violations.continuation);
    run.step(BoundsEvent::Page {
        page: Some(PromisePage {
            entries: 1,
            next: None,
        }),
    });
    run.step(BoundsEvent::Elected {
        leads: false,
        recovery: Some(RecoveryChunk {
            started: 5,
            gap_fills: 0,
            remaining: 0,
        }),
    });
    assert!(run.violations.election);
    assert!(run.violations.recovery);
    run.step(BoundsEvent::Released {
        writes: 6,
        chosen: Some(9),
    });
    assert!(run.violations.release);
    run.step(BoundsEvent::Nacked {
        rejected: ballot(1, 1),
        following: ballot(9, 1),
    });
    assert!(run.violations.nack);
    run.step(BoundsEvent::Staled { follows: false });
    assert!(run.violations.stale);
    let mut refused = run;
    refused.step(BoundsEvent::Fingerprinted { proposal: None });
    assert_eq!(refused.phase, BoundsPhase::Failed);
    run.step(BoundsEvent::Fingerprinted {
        proposal: Some(Fingerprinted {
            slot: 0,
            other: 6,
            admitted: 6,
            after_mismatch: None,
            after_match: Some(0),
        }),
    });
    assert!(run.violations.fingerprint);
}

#[test]
fn a_missing_page_ends_the_choreography() {
    let mut run = BoundsRun::start(4, 4, ballot(2, 1));
    run.step(BoundsEvent::Page { page: None });
    assert_eq!(run.phase, BoundsPhase::Failed);
    assert_eq!(run.action(), BoundsAction::Fail);
    assert_eq!(recovery_step(4, None), RecoveryStep::Missing);
    assert!(!prefix_step(4, 10, 6, None).bounded);
    assert!(prefix_step(4, 10, 5, Some(9)).done);
    assert_eq!(wrong_fingerprint(6), 7);
    let mut walk = PromiseWalk::start(4, ballot(1, 1));
    assert!(!walk.page(5));
}

#[test]
fn a_crash_is_followed_by_a_restart() {
    let mut world = world();
    let node = NodeProcess::chaotic();
    assert_eq!(
        node.exit_step(&world, 0, RunExit::SeamCrash),
        ExitStep::Restart { delay_ms: 0 }
    );
    assert_eq!(
        node.exit_step_with(&world, 0, RunExit::Storage, 300),
        ExitStep::Restart { delay_ms: 300 }
    );
    assert_eq!(node.exit_step(&world, 0, RunExit::Infra), ExitStep::Fail);
    assert_eq!(node.exit_step(&world, 0, RunExit::Clean), ExitStep::Done);
    assert_eq!(node.boot_gate(&world, 0, false), BootGate::Boot);
    world.park(0, 0);
    assert_eq!(node.exit_step(&world, 0, RunExit::Storage), ExitStep::StayDown);
    assert_eq!(node.boot_gate(&world, 0, false), BootGate::Parked);
    assert_eq!(node.boot_gate(&world, 0, true), BootGate::Retired);
    let matchmaker = MatchmakerProcess::chaotic();
    assert_eq!(
        matchmaker.exit_step(RunExit::Storage),
        ExitStep::Restart { delay_ms: 0 }
    );
    assert_eq!(matchmaker.id(Some(Role::Matchmaker(2))), Some(2));
    assert_eq!(matchmaker.id(Some(Role::Acceptor(2))), None);
    assert!(matchmaker.loss_coin_live(true, CHAOS_DURATION_MS - 1));
    assert!(!matchmaker.loss_coin_live(true, CHAOS_DURATION_MS));
    assert!(!matchmaker.loss_coin_live(false, 0));
}

#[test]
fn the_loss_coin_is_dark_in_a_scripted_case() {
    let matchmaker = MatchmakerProcess::scripted();
    assert!(!matchmaker.loss_coin_live(true, 0));
    assert!(!matchmaker.loss_coin_live(false, 0));
    assert!(MatchmakerProcess::chaotic().loss_coin_live(true, 0));
}

#[test]
fn a_wiped_node_never_boots_again() {
    let mut world = world();
    let node = NodeProcess::chaotic();
    assert!(!world.wipe(0, 0), "no cluster, no budget");
    assert!(!world.is_wiped(0));
    assert!(world.set_cluster_size(3));
    assert!(world.wipe(1, 7));
    assert!(world.is_wiped(1));
    assert!(world.is_parked(1));
    assert_eq!(node.boot_gate(&world, 1, false), BootGate::Wiped);
    assert_eq!(node.boot_gate(&world, 1, true), BootGate::Retired);
    assert!(!world.wipe(2, 2), "one loss is all a cluster of three can spare");
    assert!(!world.is_wiped(2));
    assert!(!world.is_parked(2));
    assert_eq!(node.boot_gate(&world, 2, false), BootGate::Boot);
}

#[test]
fn a_run_loses_one_matchmaker_at_most() {
    let mut world = world();
    assert!(!world.park_matchmaker(4, 2));
    assert!(!world.is_matchmaker_parked(4));
    assert!(world.park_matchmaker(4, 3));
    assert!(world.is_matchmaker_parked(4));
    assert!(world.park_matchmaker(4, 3));
    assert!(!world.park_matchmaker(5, 5));
    assert!(!world.is_matchmaker_parked(5));
}

#[test]
fn a_quorum_of_registries_is_never_sick_at_once() {
    for bootstrap in 0..=5_usize {
        let mut world = world();
        let sick = (0..6)
            .filter(|key| world.permit_matchmaker_sync_failure(*key, bootstrap))
            .count();
        assert_eq!(sick, bootstrap / 2);
        assert!(sick < bootstrap / 2 + 1);
    }
}

#[test]
fn a_client_channel_is_pinged_while_idle() {
    let channel = client_channel_config(350, 700, 400);
    assert_eq!(channel.connection_ms, 350);
    assert_eq!(
        channel.keep_alive,
        Some(KeepAlive {
            interval_ms: 700,
            timeout_ms: 400,
            while_idle: true
        })
    );
    assert_eq!(
        default_client_channel_config(),
        client_channel_config(1000, 2000, 1000)
    );
}

#[test]
fn a_scripted_node_runs_unbudgeted_at_its_fixed_size() {
    let node = NodeProcess::scripted_with_bootstrap(2);
    let mut world = world();
    assert!(node.prepare_world(&mut world, 3, false, 5, empty()));
    assert!(world.unbudgeted);
    assert_eq!(world.lane_count(), 5);
    assert_eq!(world.quorum(), 2);
    let mut registry = Registry::new();
    assert_eq!(node.bootstrap_ranks(&mut registry, 3, false), vec![0, 1]);
    assert!(!node.wipe_coin_live(true, true, 0));
    assert!(NodeProcess::chaotic().wipe_coin_live(true, true, 0));
    assert!(!NodeProcess::chaotic().wipe_coin_live(false, true, 0));
    assert!(!NodeProcess::scripted().perturbs());
    assert_eq!(node.rank(Some(Role::Acceptor(4))), Some(4));
}

#[test]
fn a_held_node_waits_until_it_is_released() {
    let mut world = world();
    let node = CorpusNodeProcess;
    assert_eq!(node.hold_gate(&world, 0, false), HoldGate::Boot { epoch: 0 });
    world.corpus_hold_node(0);
    assert!(node.restart_due(&world, 0, 0));
    assert_eq!(node.hold_gate(&world, 0, false), HoldGate::Wait);
    assert_eq!(node.hold_gate(&world, 0, true), HoldGate::Stop);
    assert_eq!(
        node.exit_step(&world, 0, None),
        ExitStep::Restart { delay_ms: 0 }
    );
    world.corpus_release_node(0);
    assert_eq!(node.hold_gate(&world, 0, false), HoldGate::Boot { epoch: 1 });
    assert!(!node.restart_due(&world, 0, 1));
    world.corpus_restart_node(0);
    assert!(node.restart_due(&world, 0, 1));
    world.park(0, 0);
    assert_eq!(node.hold_gate(&world, 0, false), HoldGate::StayDown);
    assert_eq!(
        node.exit_step(&world, 0, Some(RunExit::Storage)),
        ExitStep::StayDown
    );
}

#[test]
fn hooks_are_live_only_inside_the_window() {
    let hooks = BuggifyHooks::with_bias(4000, true, 2);
    assert_eq!(hooks.odds(3999, Site::Crash(Seam::BeforeSync)), Some(60));
    assert_eq!(
        hooks.odds(0, Site::Crash(Seam::AfterBootReplayBeforeSync)),
        Some(250)
    );
    assert_eq!(hooks.odds(4000, Site::Resign), None);
    assert_eq!(hooks.odds(0, Site::Drop(MessageKind::Nack)), Some(250));
    assert_eq!(hooks.odds(0, Site::Drop(MessageKind::Other)), None);
    assert_eq!(hooks.odds(0, Site::Duplicate(MessageKind::Relinquish)), Some(250));
    assert_eq!(hooks.odds(0, Site::Duplicate(MessageKind::Accept)), None);
    assert_eq!(hooks.odds(0, Site::DropReply(ReplyKind::Read)), Some(100));
    assert!(!hooks.fires(0, Site::Duplicate(MessageKind::Accept), true));
    assert!(hooks.fires(0, Site::Resign, true));
    assert!(!hooks.fires(0, Site::Resign, false));
    assert!(hooks.biased(true));
    let quiet = BuggifyHooks::new(4000, false);
    assert!(!quiet.active(0));
    assert_eq!(quiet.seam_crash_bias, 1);
}

#[test]
fn hard_handoffs_are_favoured() {
    let hooks = BuggifyHooks::with_bias(4000, true, 1);
    let odds = |healing, settled| hooks.odds(0, Site::Handoff { healing, settled });
    assert_eq!(odds(true, true), Some(30));
    assert_eq!(odds(false, false), Some(20));
    assert_eq!(odds(false, true), Some(2));
    assert_eq!(hooks.handoff_target(0, &vec![8, 9], true), Some(8));
    assert_eq!(hooks.handoff_target(0, &vec![5, 2], true), Some(2));
    assert_eq!(hooks.handoff_target(0, &vec![5, 2, 9, 2, 7], true), Some(2));
    assert_eq!(hooks.handoff_target(0, &vec![8, 9], false), None);
    assert_eq!(hooks.handoff_target(0, &Vec::new(), true), None);
    assert_eq!(hooks.handoff_target(4000, &vec![8, 9], true), None);
}

#[test]
fn operations_are_acknowledged_in_order() {
    let mut queue = Queue::new();
    let first = queue.push(Op::Crash(2));
    let second = queue.push(Op::Restart(2));
    assert_eq!(queue.pending().len(), 2);
    queue.acknowledge();
    assert!(queue.done(first));
    assert!(!queue.done(second));
    assert_eq!(queue.pending().len(), 1);
}

#[test]
fn a_name_keeps_its_number() {
    let mut names = Names::new();
    let a = names.number("10.0.1.1".to_string());
    let b = names.number("10.0.1.2".to_string());
    assert_ne!(a, b);
    assert_eq!(names.number("10.0.1.1".to_string()), a);
}

fn registry_faults() -> StorageFaults {
    StorageFaults::new(1_000, true, WritePathRates::defaults())
}

#[test]
fn a_synced_registry_reads_back() {
    let mut world = world();
    let mut store = DurableMatchmakerStorage::restore(&world, 9, registry_faults(), 3);
    assert_eq!(store.key(), 9);
    store.register(ballot(1, 100), vec![1, 2]);
    store.register(ballot(2, 100), vec![3]);
    store.set_gc_watermark(ballot(2, 0));
    let synced = store.sync(&mut world, 0, false);
    assert!(synced.result.is_ok());
    assert!(synced.write_once);
    store.register(ballot(3, 100), vec![4]);
    let rebooted = DurableMatchmakerStorage::restore(&world, 9, registry_faults(), 3);
    assert_eq!(rebooted.registration(ballot(2, 100)), Some(vec![3]));
    assert_eq!(rebooted.registration(ballot(1, 100)), None);
    assert_eq!(rebooted.registration(ballot(3, 100)), None);
    assert_eq!(rebooted.registered_ballots(), vec![ballot(2, 100)]);
    assert_eq!(rebooted.initial_state().gc_watermark, ballot(2, 0));
}

#[test]
fn a_registration_is_write_once() {
    let mut world = world();
    let mut store = DurableMatchmakerStorage::restore(&world, 9, registry_faults(), 3);
    store.register(ballot(1, 100), vec![1]);
    store.sync(&mut world, 0, false);
    store.register(ballot(1, 100), vec![2]);
    assert!(!store.sync(&mut world, 0, false).write_once);
}

#[test]
fn a_matchmaker_sync_failure_is_budgeted() {
    let mut world = world();
    let mut store = DurableMatchmakerStorage::restore(&world, 9, registry_faults(), 3);
    store.register(ballot(1, 100), vec![1]);
    let failed = store.sync(&mut world, 0, true);
    assert_eq!(
        failed.result,
        Err(StorageError::FsyncFailed {
            record: StorageRecord::Batch,
            outcome: WriteOutcome::Lost,
        })
    );
    // A second failing matchmaker of three would cost the quorum.
    let mut other = DurableMatchmakerStorage::restore(&world, 8, registry_faults(), 3);
    other.register(ballot(1, 100), vec![1]);
    assert!(other.sync(&mut world, 0, true).result.is_ok());
    let rebooted = DurableMatchmakerStorage::restore(&world, 9, registry_faults(), 3);
    assert_eq!(rebooted.registration(ballot(1, 100)), None);
}

#[test]
fn an_installed_registry_replaces_the_old_one() {
    let mut world = world();
    let mut store = DurableMatchmakerStorage::restore(&world, 9, registry_faults(), 3);
    store.register(ballot(1, 100), vec![1]);
    store.sync(&mut world, 0, false);
    let scalars = MatchmakerScalars {
        gc_watermark: ballot(5, 0),
        body: vec![7],
    };
    store.set_scalars(scalars.copied());
    let blank = paros_sim::registry::MatchmakerDisk::blank();
    store.install_registry(scalars, blank.registry);
    store.sync(&mut world, 0, false);
    let rebooted = DurableMatchmakerStorage::restore(&world, 9, registry_faults(), 3);
    assert!(rebooted.registered_ballots().is_empty());
    assert_eq!(rebooted.initial_state().body, vec![7]);
}

#[test]
fn canonical_masks_are_exhaustive_over_two_slots() {
    let masks = corpus_canonical_masks();
    assert_eq!(masks.len(), 70);
    for grid in 0..64_u16 {
        let spread = (grid & 3) | ((grid >> 2 & 3) << 3) | ((grid >> 4 & 3) << 6);
        assert!(masks.contains(&spread));
    }
    assert_eq!(
        masks[64..],
        [
            0b100_100_100,
            0b000_000_111,
            0b000_111_000,
            0b111_000_000,
            0b111_111_111,
            0b011_101_110
        ]
    );
    assert!(masks.contains(&0b100_100_100));
    assert!(masks.contains(&0b111_111_111));
    assert!(masks.iter().all(|m| *m < 512));
    assert_eq!(
        chunk_corpus_canonical_masks(),
        vec![0, 1, 0x21, 0x421, 0x1f, 0x1041, 0x128c, 0x7fff]
    );
}

#[test]
fn a_digest_is_the_published_one() {
    assert_eq!(chain_seed_digest(0, Some(77)), 77);
}

#[test]
fn a_fresh_disk_holds_nothing() {
    let disk = NodeDisk::fresh(empty());
    assert!(disk.accepted.is_empty());
    assert_eq!(disk.first_slot, 0);
}
