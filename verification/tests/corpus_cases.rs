use paros_sim::chunk_masks::{chunk_mask_space, derive_unassemblable, is_chunk_masked};
use paros_sim::corpus::{
    aim, ask_step, contiguous, installed_past, payload, refused_since, retarget, sorted_servers,
    Applied, AskReply, AskStep,
    BareQuorumWorkload, ChunkMaskSource, ChunkMaskWorkload, E1MaskWorkload, MaskSource,
    SnapshotLifecycleWorkload, POINT_CHUNKS,
};
use paros_sim::faults::{StorageFaults, WritePathRates};
use paros_sim::masks::{
    derive_lost, hold_at, is_lost, is_masked, same_slots, within, CORPUS_MASK_SPACE,
};
use paros_sim::ordered::OrdSet;
use paros_sim::records::{AppState, Ballot, ChunkSize, Entry, MustSync};
use paros_sim::roles::{AddressKey, HostIp};
use paros_sim::script::{hold_step, wait_step, Act, CaseRun, Line, Owed, WaitStep};
use paros_sim::stage::CommandKind;
use paros_sim::storage::DurableStorage;
use paros_sim::world::StorageWorld;
use paros_sim::writes::{SyncCoins, WriteCoins};

const CALM: WriteCoins = WriteCoins {
    fires: false,
    persisted: false,
};

const CALM_SYNC: SyncCoins = SyncCoins {
    force_torn: false,
    fails: false,
    persisted: false,
    torn: false,
    torn_entry_faulty: false,
};

fn app(count: u64) -> AppState {
    AppState {
        applied_count: count,
        chain_hash: 1000 + count,
        blob: vec![count as u8; 20],
    }
}

fn at(count: u64) -> Applied {
    Applied {
        count,
        chain_hash: 1000 + count,
    }
}

fn quiet() -> StorageFaults {
    StorageFaults::new(0, false, WritePathRates::defaults())
}

/// Give `key` the slots from `from` to before `to`, applied.
fn decide(world: &mut StorageWorld, key: u64, from: u64, to: u64) {
    let mut store = DurableStorage::open(world, key, key, quiet());
    for slot in from..to {
        let entry = Entry {
            ballot: Ballot { round: 1, node: 0 },
            command: vec![slot as u8],
            digest: slot,
        };
        store.append_accepted(world, 0, slot, entry, CALM);
        store.apply(world, 0, slot, slot, CommandKind::User, app(slot + 1), CALM);
    }
    store.set_chosen_index(world, 0, to - 1, CALM);
    store.sync_with(world, 0, MustSync::Sync, CALM_SYNC, 0);
}

/// Have `key` retain the point at its last applied slot and truncate below
/// `floor`.
fn compact(world: &mut StorageWorld, key: u64, point: u64, floor: u64) {
    let mut store = DurableStorage::open(world, key, key, quiet());
    store.record_snapshot(point);
    store.truncate(world, 0, floor, Vec::new(), CALM);
    store.sync_with(world, 0, MustSync::Sync, CALM_SYNC, 0);
}

fn cluster(slots: u64) -> StorageWorld {
    let mut world = StorageWorld::new(ChunkSize::new(4).unwrap(), 8, app(0));
    world.set_cluster_size(3);
    world.set_unbudgeted();
    for key in 0..3 {
        decide(&mut world, key, 0, slots);
    }
    world
}

fn keys() -> Vec<u64> {
    vec![0, 1, 2]
}

fn host(text: &str, bits: u32) -> HostIp {
    HostIp {
        text: text.to_string(),
        key: AddressKey::V4(bits),
    }
}

fn members(set: &OrdSet<u64>) -> Vec<u64> {
    (0..set.len()).map(|i| set.at(i)).collect()
}

#[test]
fn a_scripted_case_has_three_servers() {
    let three = sorted_servers(vec![host("c", 3), host("a", 1), host("b", 2)]).unwrap();
    let texts: Vec<String> = three.into_iter().map(|h| h.text).collect();
    assert_eq!(texts, vec!["a", "b", "c"]);
    assert_eq!(sorted_servers(vec![host("a", 1)]).err(), Some(1));
}

#[test]
fn a_payload_is_a_function_of_its_request() {
    let bytes = payload(0);
    assert_eq!(bytes.len(), 48);
    assert_eq!(bytes[..6], [192, 87, 17, 231, 72, 190]);
    assert_eq!(bytes[46..], [146, 199]);
    assert_eq!(payload(7)[..6], [7, 147, 14, 4, 202, 251]);
}

#[test]
fn an_excluded_node_is_not_asked() {
    assert_eq!(aim(2, Some(2), 3), 0);
    assert_eq!(aim(1, Some(2), 3), 1);
    assert_eq!(retarget(0, Some(2), None, 3), 2);
    assert_eq!(retarget(0, Some(2), Some(2), 3), 1);
    assert_eq!(retarget(2, Some(7), None, 3), 0);
    assert_eq!(retarget(2, None, None, 3), 0);
    assert!(contiguous(5, 3, 2));
    assert!(!contiguous(2, 3, 2));
}

#[test]
fn refusals_and_installs_are_told_apart() {
    assert!(refused_since(9, Some(1), 8));
    assert!(!refused_since(9, Some(0), 8));
    assert!(!refused_since(8, Some(1), 8));
    assert!(!refused_since(9, None, 8));
    assert!(installed_past(Some(0), Some(8), 0, 8));
    assert!(!installed_past(Some(0), Some(7), 0, 8));
    assert!(!installed_past(Some(1), Some(8), 0, 8));
    assert!(!installed_past(Some(0), None, 0, 8));
}

#[test]
fn a_slot_is_lost_when_every_copy_is_masked() {
    assert!(is_masked(0b1, 0, 0));
    assert!(!is_masked(0b1, 1, 0));
    assert_eq!(CORPUS_MASK_SPACE, 512);
    assert!(derive_lost(0).is_empty());
    assert_eq!(members(&derive_lost(511)), vec![0, 1, 2]);
    assert_eq!(hold_at(511), Some(0));
    assert_eq!(hold_at(0), None);
    for mask in 0..CORPUS_MASK_SPACE {
        let lost = derive_lost(mask);
        for slot in 0..3 {
            let masked = (0..3).all(|node| is_masked(mask, node, slot as u16));
            assert_eq!(is_lost(mask, slot), masked);
            assert_eq!(lost.contains(slot), masked);
        }
        let first = (0..3).find(|slot| lost.contains(*slot));
        assert_eq!(hold_at(mask), first);
    }
}

#[test]
fn an_injected_mask_loses_what_it_derives() {
    for mask in 0..CORPUS_MASK_SPACE {
        let mut world = cluster(3);
        let injected = world.inject_mask(&keys(), mask);
        assert!(injected.landed);
        assert!(injected.agrees);
        let truth = world.unrecoverable_slots();
        assert!(same_slots(&truth, &derive_lost(mask)));
        assert_eq!(world.restart_epoch(0), 1);
    }
}

#[test]
fn a_bare_quorum_loss_is_exact() {
    let mut world = cluster(2);
    world.corpus_hold_node(2);
    decide(&mut world, 0, 2, 3);
    decide(&mut world, 1, 2, 3);
    assert!(world.replicated(&keys(), 0, 2, 3, at(3)));
    assert!(!world.replicated(&keys(), 0, 3, 3, at(3)));
    let injected = world.inject_bare_quorum(&keys());
    assert!(injected.landed);
    assert!(injected.agrees);
    assert_eq!(members(&world.unrecoverable_slots()), vec![2]);
    assert!(!world.is_held(2));
}

#[test]
fn a_chunk_is_unassemblable_when_no_copy_is_clean() {
    assert_eq!(chunk_mask_space(POINT_CHUNKS), 1 << 15);
    assert!(is_chunk_masked(0x21, POINT_CHUNKS, 1, 0));
    assert!(!is_chunk_masked(0x21, POINT_CHUNKS, 2, 0));
    assert!(derive_unassemblable(0x21, POINT_CHUNKS).is_empty());
    assert_eq!(derive_unassemblable(0x421, POINT_CHUNKS).len(), 1);
    assert!(derive_unassemblable(0x421, POINT_CHUNKS).contains(0));
    assert_eq!(derive_unassemblable(0x7fff, POINT_CHUNKS).len(), 5);
}

#[test]
fn chunk_rot_strands_no_slot() {
    for mask in [0, 1, 0x21, 0x421, 0x1f, 0x1041, 0x128c, 0x7fff] {
        let mut world = cluster(7);
        for key in 0..3 {
            compact(&mut world, key, 6, 6);
        }
        assert!(world.floors_raised(&keys(), 0, 3, 6));
        assert!(!world.floors_raised(&keys(), 0, 3, 7));
        assert!(world.points_settled(&keys(), 6, 6, at(7)));
        let injected = world.inject_chunk_mask(&keys(), POINT_CHUNKS, mask, true);
        assert!(injected.landed);
        assert!(injected.agrees);
        let lost = derive_unassemblable(mask, POINT_CHUNKS);
        assert!(world.chunks_still_faulty(&keys(), mask, POINT_CHUNKS, &lost));
        let untouched = world.chunks_healed(&keys(), &lost);
        let masked_elsewhere = (0..POINT_CHUNKS).any(|chunk| {
            !lost.contains(chunk)
                && (0..3).any(|node| is_chunk_masked(mask, POINT_CHUNKS, node, chunk))
        });
        assert_eq!(untouched, !masked_elsewhere);
    }
}

#[test]
fn a_folded_prefix_is_lost_with_every_point() {
    let mut world = cluster(8);
    for key in 0..3 {
        compact(&mut world, key, 7, 8);
    }
    assert!(world.inject_fold(&keys()));
    let truth = world.unrecoverable_slots();
    assert_eq!(members(&truth), (0..8).collect::<Vec<u64>>());
    let mut fewer: OrdSet<u64> = OrdSet::new();
    fewer.insert(3);
    assert!(within(&fewer, &truth));
    assert!(!within(&truth, &fewer));
}

fn line(act: Act, owed: Owed) -> Line {
    Line {
        act,
        owed,
        gated: false,
    }
}

#[test]
fn a_case_carries_its_lines_out_in_order() {
    let mut run = CaseRun::start(vec![
        line(Act::Inject, Owed::Judged),
        line(Act::Sleep { ms: 5 }, Owed::Nothing),
        Line {
            act: Act::HoldChunks,
            owed: Owed::Judged,
            gated: true,
        },
        line(Act::AwaitChunks, Owed::Vital),
    ]);
    assert_eq!(run.next(), Some(Act::Inject));
    assert!(run.report(false).violated);
    let slept = run.report(false);
    assert!(!slept.violated && !slept.aborted);
    // The gated line is passed over, and fails with it.
    assert_eq!(slept.passed_over, Some(Act::HoldChunks));
    assert_eq!(run.next(), Some(Act::AwaitChunks));
    assert!(run.report(true).violated == false);
    assert_eq!(run.next(), None);
    assert!(run.tail_held(1));
    assert!(!run.tail_held(2));
    assert!(run.line_held(1));
    assert!(!run.line_held(2));
}

#[test]
fn a_vital_line_ends_the_case() {
    let mut run = CaseRun::start(vec![
        line(Act::Inject, Owed::Vital),
        line(Act::AwaitChunks, Owed::Judged),
    ]);
    let reported = run.report(false);
    assert!(reported.violated && reported.aborted);
    assert_eq!(reported.passed_over, None);
    assert_eq!(run.next(), None);
    assert!(!run.tail_held(0));
}

#[test]
fn a_failed_wait_fails_the_hold_it_gates() {
    let mut run = CaseRun::start(E1MaskWorkload::script(0b001_001_001));
    for _ in 0..3 {
        let reported = run.report(true);
        assert!(!reported.violated);
        assert_eq!(reported.passed_over, None);
    }
    assert_eq!(run.next(), Some(Act::AwaitAll { applied: 0 }));
    assert_eq!(run.passed_over(true), None);
    assert_eq!(run.passed_over(false), Some(Act::HoldAll { applied: 0 }));
    let reported = run.report(false);
    assert!(reported.violated);
    assert_eq!(reported.passed_over, Some(Act::HoldAll { applied: 0 }));
    assert!(!reported.aborted);
    assert_eq!(run.next(), None);
    let mut workload = E1MaskWorkload::new(MaskSource::Fixed(0b001_001_001));
    workload.judge(0b001_001_001, &run);
    assert!(!workload.non_vacuous());
}

#[test]
fn a_case_that_ends_owes_nothing_more() {
    let mut run = CaseRun::start(vec![
        line(Act::Inject, Owed::Vital),
        Line {
            act: Act::HoldChunks,
            owed: Owed::Judged,
            gated: true,
        },
    ]);
    let reported = run.report(false);
    assert!(reported.violated && reported.aborted);
    assert_eq!(reported.passed_over, None);
}

#[test]
fn a_wait_ends_at_what_it_waits_for_or_its_deadline() {
    assert_eq!(wait_step(false, false, false), WaitStep::Poll);
    assert_eq!(wait_step(true, false, false), WaitStep::Stop(true));
    assert_eq!(wait_step(true, true, false), WaitStep::Stop(true));
    assert_eq!(wait_step(false, true, false), WaitStep::Stop(false));
    assert_eq!(wait_step(true, false, true), WaitStep::Stop(false));
    assert_eq!(hold_step(false, false, false), WaitStep::Poll);
    assert_eq!(hold_step(true, true, false), WaitStep::Stop(false));
    assert_eq!(hold_step(false, true, false), WaitStep::Stop(true));
    assert_eq!(hold_step(false, false, true), WaitStep::Stop(true));
}

#[test]
fn a_request_goes_to_the_hinted_leader_or_the_next_node() {
    let reply = |done, leader| Some(AskReply { done, leader });
    assert_eq!(ask_step(2, reply(true, Some(1)), None, 3), AskStep::Done);
    assert_eq!(
        ask_step(2, reply(false, Some(1)), None, 3),
        AskStep::Ask { target: 1 }
    );
    assert_eq!(
        ask_step(2, reply(false, Some(1)), Some(1), 3),
        AskStep::Ask { target: 0 }
    );
    assert_eq!(ask_step(0, None, None, 3), AskStep::Ask { target: 1 });
}

fn held(script: Vec<Line>) -> CaseRun {
    let mut run = CaseRun::start(script);
    while run.next().is_some() {
        run.report(true);
    }
    run
}

#[test]
fn a_mask_case_judges_its_derivation() {
    let waiting = E1MaskWorkload::script(511);
    assert_eq!(waiting.len(), 5);
    assert_eq!(waiting[4].act, Act::HoldAll { applied: 0 });
    assert!(waiting[4].gated);
    let intact = E1MaskWorkload::script(0);
    assert_eq!(intact.len(), 4);
    assert_eq!(intact[3].act, Act::AwaitAll { applied: 3 });

    let mut workload = E1MaskWorkload::new(MaskSource::Fixed(511 + 512));
    assert_eq!(workload.mask(), 511);
    assert_eq!(E1MaskWorkload::new(MaskSource::Seeded).mask_with(513), 1);
    assert!(!workload.non_vacuous());
    workload.judge(511, &held(waiting));
    assert!(workload.waited_unrecoverable && !workload.recovered_intact);
    assert!(workload.non_vacuous());
    let mut other = E1MaskWorkload::new(MaskSource::Fixed(0));
    other.judge(0, &held(intact));
    assert!(other.recovered_intact);
}

#[test]
fn the_scripted_cases_complete_when_their_lines_hold() {
    let mut bare = BareQuorumWorkload::new();
    let script = BareQuorumWorkload::script();
    assert_eq!(script.len(), 8);
    assert_eq!(script[2].act, Act::Hold { node: 2 });
    bare.judge(&held(script));
    assert!(bare.waited);

    let mut lifecycle = SnapshotLifecycleWorkload::new();
    let script = SnapshotLifecycleWorkload::script();
    assert_eq!(script.len(), 22);
    lifecycle.judge(&held(script));
    assert!(lifecycle.completed);
}

#[test]
fn a_chunk_case_tells_repair_from_loss() {
    let mut workload = ChunkMaskWorkload::new(ChunkMaskSource::Fixed(0x421), false);
    let mask = workload.mask(POINT_CHUNKS);
    assert_eq!(mask, 0x421);
    let lost = derive_unassemblable(mask, POINT_CHUNKS);
    let run = held(ChunkMaskWorkload::script());
    workload.judge(mask, &lost, &run);
    assert!(workload.repaired_clean);
    assert!(workload.unassemblable_held);
    let mut clean = ChunkMaskWorkload::new(ChunkMaskSource::Seeded, false);
    assert_eq!(clean.mask_with(POINT_CHUNKS, (1 << 15) + 3), 3);
    clean.judge(0, &derive_unassemblable(0, POINT_CHUNKS), &run);
    assert!(!clean.repaired_clean && !clean.unassemblable_held);
}
