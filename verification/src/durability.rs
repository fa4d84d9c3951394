//! What the durable store promises across crashes: a synced write is read
//! back, an un-synced one is lost whole, and a boot never throws away a record
//! it cannot prove was never acknowledged.
use crate::disk::{DiskView, RecordHealth, SnapPointView};
use crate::faults::StorageFaults;
use crate::flush::{flush_disk, flush_scalars, flush_world, kept};
use crate::ordered::MapKey;
use crate::records::{Ballot, CorruptionVerdict, MustSync, SlotCase, StorageRecord};
use crate::scan::{Reaction, Scan, ScanApp, ScanRow, rows_to, scan_rows, slots_of};
use crate::stage::StageView;
use crate::storage::{EvidenceView, StorageView};
use crate::sync::{chunk_bytes_of, chunk_read};
use crate::world::{CorruptionOutcome, WorldView};
use crate::writes::{SyncCoins, WriteCoins, WriteView};
use vstd::prelude::*;

verus! {

/// After a flush, the next boot reads back what was flushed: the accepted
/// records at or above the floor, clean and with the bytes that were staged,
/// the scalars, the floor, and the application state.
pub proof fn law_synced_writes_read_back(
    w: WorldView,
    key: u64,
    node: u64,
    st: StageView,
    faults: StorageFaults,
)
    ensures
        ({
            let boot = StorageView::opened(flush_world(w, key, node, st), key, node, faults);
            let before = w.disk_or_fresh(key);
            &&& forall|slot: u64| #[trigger]
                st.accepted.contains_key(slot) && kept(before, st, slot)
                    ==> boot.boot.accepted.contains_key(slot) && boot.boot.accepted[slot]
                    == st.accepted[slot]
            &&& st.chosen is Some ==> boot.boot.hard_state.chosen_index == st.chosen
            &&& st.config_id matches Some(config_id) ==> boot.boot.hard_state.config_id
                == config_id
            &&& st.ballot matches Some(ballot) ==> boot.boot.hard_state.max_promised_ballot.rank()
                >= ballot.rank()
            &&& st.floor matches Some(floor) ==> boot.boot.first_slot >= floor
            &&& st.applied matches Some(applied) ==> boot.application == applied
            &&& st.applied is None && st.snapshot is Some ==> Some(boot.application) == st.snapshot
        }),
{
    let after = flush_world(w, key, node, st);
    let d0 = w.disk_or_fresh(key);
    let d1 = flush_disk(d0, st, w.chunk_bytes);
    assert(after.disks[key] == d1);
    assert(after.disks.contains_key(key));
    let boot = StorageView::opened(after, key, node, faults);
    assert forall|slot: u64| #[trigger]
        st.accepted.contains_key(slot) && kept(d0, st, slot) implies boot.boot.accepted.contains_key(
        slot,
    ) && boot.boot.accepted[slot] == st.accepted[slot] by {
        assert(d1.accepted.contains_key(slot));
        assert(!d1.entry_health.contains_key(slot));
        assert(d1.clean_slots().contains(slot));
    }
}

/// Records a flush did not touch read back as before.
pub proof fn law_flush_leaves_other_records(w: WorldView, key: u64, node: u64, st: StageView, slot: u64)
    requires
        w.disks.contains_key(key),
        w.disks[key].accepted.contains_key(slot),
        !st.accepted.contains_key(slot),
        kept(w.disks[key], st, slot),
    ensures
        ({
            let d = flush_world(w, key, node, st).disks[key];
            &&& d.accepted.contains_key(slot)
            &&& d.accepted[slot] == w.disks[key].accepted[slot]
            &&& d.slot_health(slot) == w.disks[key].slot_health(slot)
        }),
{
    let d1 = flush_disk(w.disks[key], st, w.chunk_bytes);
    assert(flush_world(w, key, node, st).disks[key] == d1);
}

/// A flush touches its own node's disk alone.
pub proof fn law_flush_leaves_other_nodes(w: WorldView, key: u64, node: u64, st: StageView, other: u64)
    requires
        other != key,
    ensures
        flush_world(w, key, node, st).disks.contains_key(other) == w.disks.contains_key(other),
        w.disks.contains_key(other) ==> flush_world(w, key, node, st).disks[other]
            == w.disks[other],
        flush_world(w, key, node, st).marks_of(other) == w.marks_of(other),
{
}

/// A write outside the chaos window only stages: a crash before the next sync
/// leaves the durable world as it was, so the next boot reads what it would
/// have read without the write.
pub proof fn law_unsynced_write_is_lost(
    s: StorageView,
    w: WorldView,
    now_ns: u64,
    write: WriteView,
    coins: WriteCoins,
)
    requires
        !s.faults.live(now_ns),
    ensures
        s.write_step(w, now_ns, write, coins).world == w,
        s.write_step(w, now_ns, write, coins).written.result is Ok,
{
}

/// A failed write or sync on its lost leg leaves the node's disk as it was,
/// unless the batch tore.
pub proof fn law_lost_sync_leaves_disk(
    s: StorageView,
    w: WorldView,
    now_ns: u64,
    coins: SyncCoins,
    draw: u64,
)
    requires
        s.sync_step(w, now_ns, MustSync::Sync, coins, draw).written.result is Err,
        !coins.persisted,
        !coins.torn,
        !coins.force_torn,
    ensures
        s.sync_step(w, now_ns, MustSync::Sync, coins, draw).world.disks == w.disks,
        s.sync_step(w, now_ns, MustSync::Sync, coins, draw).storage == s,
{
}

/// An error never tells which leg was taken: a failed sync answers the same
/// whether the batch landed, tore, or was lost whole.
pub proof fn law_sync_error_is_ambiguous(
    s: StorageView,
    w: WorldView,
    now_ns: u64,
    coins: SyncCoins,
    other: SyncCoins,
    draw: u64,
)
    requires
        s.sync_step(w, now_ns, MustSync::Sync, coins, draw).written.result is Err,
        s.sync_step(w, now_ns, MustSync::Sync, other, draw).written.result is Err,
    ensures
        s.sync_step(w, now_ns, MustSync::Sync, coins, draw).written.result == s.sync_step(
            w,
            now_ns,
            MustSync::Sync,
            other,
            draw,
        ).written.result,
{
}

/// A relaxed sync keeps the batch staged and writes nothing.
pub proof fn law_relaxed_sync_keeps_stage(
    s: StorageView,
    w: WorldView,
    now_ns: u64,
    coins: SyncCoins,
    draw: u64,
)
    ensures
        s.sync_step(w, now_ns, MustSync::Relaxed, coins, draw).storage == s,
        s.sync_step(w, now_ns, MustSync::Relaxed, coins, draw).world == w,
{
}

/// No new fault is injected outside the chaos window: a sync there adds nothing
/// to either fault ledger, and always succeeds.
pub proof fn law_no_fault_outside_window(
    s: StorageView,
    w: WorldView,
    now_ns: u64,
    coins: SyncCoins,
    draw: u64,
)
    requires
        !s.faults.live(now_ns),
    ensures
        s.sync_step(w, now_ns, MustSync::Sync, coins, draw).world.injected == w.injected,
        s.sync_step(w, now_ns, MustSync::Sync, coins, draw).world.corruptions.len()
            == w.corruptions.len(),
        s.sync_step(w, now_ns, MustSync::Sync, coins, draw).written.result is Ok,
{
}

/// The durable promise and the compaction floor never lower.
pub proof fn law_flush_is_monotone(d: DiskView, st: StageView, chunk_bytes: nat)
    ensures
        flush_disk(d, st, chunk_bytes).hard_state.max_promised_ballot.rank()
            >= d.hard_state.max_promised_ballot.rank(),
        flush_disk(d, st, chunk_bytes).first_slot >= d.first_slot,
{
}

/// A stage in the order the driver writes: the chosen index only advances, and
/// a floor is staged only behind a chosen index.
pub open spec fn in_write_order(d: DiskView, st: StageView) -> bool {
    let chosen = flush_scalars(d.hard_state, st).chosen_index;
    &&& d.hard_state.chosen_index matches Some(was) ==> (chosen matches Some(now) && now >= was)
    &&& st.floor matches Some(floor) ==> floor == 0 || (chosen matches Some(now) && floor <= now
        + 1)
}

/// A flushed floor never outruns the flushed chosen index.
pub proof fn law_floor_stays_behind_chosen(d: DiskView, st: StageView, chunk_bytes: nat)
    requires
        d.floor_behind_chosen(),
        in_write_order(d, st),
    ensures
        flush_disk(d, st, chunk_bytes).floor_behind_chosen(),
{
}

/// Installing a snapshot stages its floor right behind its chosen index, so an
/// install that advances the chosen index is in write order.
pub proof fn law_install_is_in_write_order(
    s: StorageView,
    d: DiskView,
    chosen: u64,
    ballot: Ballot,
    state: crate::records::AppView,
    sessions: Seq<crate::records::SealedSession>,
)
    requires
        s.stage.floor is None,
        chosen < u64::MAX,
        d.hard_state.chosen_index matches Some(was) ==> was <= chosen,
    ensures
        in_write_order(d, s.staged(WriteView::Install(chosen, ballot, state, sessions)).stage),
{
}

/// A scan of a boot whose every record verifies changes nothing and succeeds.
pub proof fn law_clean_boot_scans_clean(s: StorageView, w: WorldView, cases: Seq<SlotCase>)
    requires
        s.evidence.promise == (RecordHealth::Clean, RecordHealth::Clean),
        s.evidence.chosen == RecordHealth::Clean,
        s.evidence.truncation == RecordHealth::Clean,
        s.evidence.snapshot == RecordHealth::Clean,
        s.evidence.meta is None,
        s.evidence.read_eio is None,
        s.evidence.snap_point is None || forall|i: int|
            0 <= i < s.evidence.snap_chunks.len() ==> #[trigger] s.evidence.snap_chunks[i]
                == RecordHealth::Clean,
        forall|i: int| 0 <= i < cases.len() ==> (#[trigger] cases[i]).verdict is None,
    ensures
        s.boot_scan(w, cases).error is None,
        s.boot_scan(w, cases).world == w,
        s.boot_scan(w, cases).storage == (StorageView { evidence: EvidenceView::none(), ..s }),
{
    let rows = scan_rows(s.evidence.records, cases);
    assert forall|r: Reaction| r != Reaction::Keep implies #[trigger] rows_to(rows, r)
        == Seq::<ScanRow>::empty() by {
        lemma_filter_none(rows, |row: ScanRow| row.reacts() == r);
    }
    if s.evidence.snap_point is Some {
        lemma_no_rotted(s.evidence.snap_chunks);
    }
    assert(w.see_rows(rows).seen =~= w.seen);
    assert(slots_of(rows_to(rows, Reaction::Discard)).len() == 0);
}

proof fn lemma_filter_none(rows: Seq<ScanRow>, pred: spec_fn(ScanRow) -> bool)
    requires
        forall|i: int| 0 <= i < rows.len() ==> !pred(#[trigger] rows[i]),
    ensures
        rows.filter(pred) == Seq::<ScanRow>::empty(),
    decreases rows.len(),
{
    reveal(Seq::filter);
    if rows.len() > 0 {
        let front = rows.drop_last();
        assert forall|i: int| 0 <= i < front.len() implies !pred(#[trigger] front[i]) by {
            assert(front[i] == rows[i]);
        }
        lemma_filter_none(front, pred);
        assert(!pred(rows[rows.len() - 1]));
    } else {
        assert(rows =~= Seq::<ScanRow>::empty());
    }
}

proof fn lemma_no_rotted(health: Seq<RecordHealth>)
    requires
        forall|i: int| 0 <= i < health.len() ==> #[trigger] health[i] == RecordHealth::Clean,
    ensures
        crate::flush::rotted_names(health) == Seq::<u32>::empty(),
    decreases health.len(),
{
    if health.len() > 0 {
        let front = health.drop_last();
        assert forall|i: int| 0 <= i < front.len() implies #[trigger] front[i]
            == RecordHealth::Clean by {
            assert(front[i] == health[i]);
        }
        lemma_no_rotted(front);
        assert(health[health.len() - 1] == RecordHealth::Clean);
    }
}

/// Resolving the ledger touches neither disks, marks nor parked nodes.
proof fn lemma_resolve_slots_frame(
    w: WorldView,
    node: u64,
    slots: Seq<u64>,
    outcome: CorruptionOutcome,
)
    ensures
        w.resolve_slots(node, slots, outcome).disks == w.disks,
        w.resolve_slots(node, slots, outcome).marks == w.marks,
        w.resolve_slots(node, slots, outcome).parked == w.parked,
        w.resolve_slots(node, slots, outcome).cluster_size == w.cluster_size,
    decreases slots.len(),
{
    if slots.len() > 0 {
        lemma_resolve_slots_frame(w, node, slots.drop_last(), outcome);
    }
}

proof fn lemma_resolve_chunks_frame(w: WorldView, node: u64, at: u64, chunks: Seq<u32>)
    ensures
        w.resolve_chunks(node, at, chunks).disks == w.disks,
        w.resolve_chunks(node, at, chunks).marks == w.marks,
        w.resolve_chunks(node, at, chunks).parked == w.parked,
        w.resolve_chunks(node, at, chunks).cluster_size == w.cluster_size,
    decreases chunks.len(),
{
    if chunks.len() > 0 {
        lemma_resolve_chunks_frame(w, node, at, chunks.drop_last());
    }
}

/// The slots a scan may drop: those the classifier called a crash tail.
pub open spec fn crash_tail(records: Seq<crate::storage::EvidenceRow>, cases: Seq<SlotCase>) -> Set<
    u64,
> {
    slots_of(rows_to(scan_rows(records, cases), Reaction::Discard)).to_set()
}

/// What the phases before the log leave of the disks' logs.
proof fn lemma_log_untouched(s: StorageView, w: WorldView, cases: Seq<SlotCase>)
    ensures
        ({
            let scan = s.boot_scan(w, cases);
            let tail = crash_tail(s.evidence.records, cases);
            &&& scan.world.disks.dom() == w.disks.dom()
            &&& forall|key: u64| #[trigger]
                w.disks.contains_key(key) ==> scan.world.disks[key].accepted == if key == s.key
                    && scan.error is None {
                    w.disks[key].accepted.remove_keys(tail)
                } else {
                    w.disks[key].accepted
                }
        }),
{
    let e = s.evidence;
    let start = Scan {
        storage: StorageView { evidence: EvidenceView::none(), ..s },
        world: w,
        error: None,
        app: ScanApp::Untouched,
    };
    let tail = crash_tail(e.records, cases);
    let rows = scan_rows(e.records, cases);
    let end = s.boot_scan(w, cases);
    let a = start.meta(e);
    if a.error is None {
        let b = a.read_error(e);
        if b.error is None {
            let c = b.promise(e);
            lemma_same_logs(w, c.world, s.key);
            if c.error is None {
                let d = c.scalar(e.chosen, StorageRecord::ChosenIndex);
                if d.error is None {
                    let f = d.scalar(e.truncation, StorageRecord::Truncation);
                    if f.error is None {
                        let g = f.snapshot(e);
                        lemma_same_logs(f.world, g.world, s.key);
                        let h = g.chunks(e);
                        if e.snap_point is Some {
                            lemma_resolve_chunks_frame(
                                g.world,
                                s.node_id,
                                e.snap_point->0,
                                crate::flush::rotted_names(e.snap_chunks),
                            );
                        }
                        lemma_log_phase(h, e, cases);
                    }
                }
            }
        }
    }
    assert(end.world.disks.dom() =~= w.disks.dom());
    assert forall|key: u64| #[trigger] w.disks.contains_key(
        key,
    ) implies end.world.disks[key].accepted == if key == s.key && end.error is None {
        w.disks[key].accepted.remove_keys(tail)
    } else {
        w.disks[key].accepted
    } by {}
}

proof fn lemma_same_logs(a: WorldView, b: WorldView, key: u64)
    requires
        a.disks.dom() =~= b.disks.dom(),
        forall|k: u64| #[trigger]
            a.disks.contains_key(k) ==> b.disks[k].accepted == a.disks[k].accepted,
    ensures
        forall|k: u64| #[trigger]
            b.disks.contains_key(k) ==> b.disks[k].accepted == a.disks[k].accepted,
{
}

proof fn lemma_log_phase(h: Scan, e: EvidenceView, cases: Seq<SlotCase>)
    requires
        h.error is None,
    ensures
        ({
            let end = h.log(e, cases);
            let tail = crash_tail(e.records, cases);
            &&& end.world.disks.dom() == h.world.disks.dom()
            &&& forall|key: u64| #[trigger]
                h.world.disks.contains_key(key) ==> end.world.disks[key].accepted == if key
                    == h.storage.key && end.error is None {
                    h.world.disks[key].accepted.remove_keys(tail)
                } else {
                    h.world.disks[key].accepted
                }
        }),
{
    let rows = scan_rows(e.records, cases);
    let tail = crash_tail(e.records, cases);
    let seen = h.go_on(h.world.see_rows(rows));
    let crashed = seen.crashes(rows);
    let node = h.storage.node_id;
    let picked = rows_to(rows, Reaction::Crash);
    if picked.len() > 0 {
        lemma_resolve_slots_frame(
            seen.world.park(h.storage.key, node).resolve(
                node,
                StorageRecord::Accepted(picked[0].row.slot),
                CorruptionOutcome::Crashed,
            ),
            node,
            slots_of(picked.skip(1)),
            CorruptionOutcome::CoDetected,
        );
    } else {
        let reported = crashed.reports(rows);
        lemma_resolve_slots_frame(
            crashed.world.see(crate::world::Sighting::FaultyReported),
            node,
            slots_of(rows_to(rows, Reaction::Report)),
            CorruptionOutcome::Reported,
        );
        let slots = slots_of(rows_to(rows, Reaction::Discard));
        let key = h.storage.key;
        if slots.len() > 0 {
            let w = reported.world.see(crate::world::Sighting::TornTailDiscarded).clear_marks(
                key,
                slots.to_set(),
            );
            lemma_resolve_slots_frame(
                w.mend_disk(
                    key,
                    DiskView {
                        accepted: w.disks[key].accepted.remove_keys(slots.to_set()),
                        entry_health: w.disks[key].entry_health.remove_keys(slots.to_set()),
                        ..w.disks[key]
                    },
                ),
                node,
                slots,
                CorruptionOutcome::DiscardedTail,
            );
        } else {
            assert(tail =~= Set::<u64>::empty());
            assert forall|k: u64| #[trigger] h.world.disks.contains_key(
                k,
            ) implies h.world.disks[k].accepted.remove_keys(tail)
                == h.world.disks[k].accepted by {
                assert(h.world.disks[k].accepted.remove_keys(tail)
                    =~= h.world.disks[k].accepted);
            }
        }
    }
    let end = h.log(e, cases);
    assert(end.world.disks.dom() =~= h.world.disks.dom());
}

/// A scan never truncates because a record is corrupt: the only ones it drops
/// are the booting node's own, each one classified a crash tail, and only when
/// it lets the node run. A scan that crashes drops nothing.
pub proof fn law_scan_discards_only_crash_tails(
    s: StorageView,
    w: WorldView,
    cases: Seq<SlotCase>,
    key: u64,
    slot: u64,
)
    requires
        w.disks.contains_key(key),
        w.disks[key].accepted.contains_key(slot),
    ensures
        ({
            let scan = s.boot_scan(w, cases);
            &&& scan.world.disks.contains_key(key)
            &&& scan.world.disks[key].accepted.contains_key(slot) ==> scan.world.disks[key].accepted[slot]
                == w.disks[key].accepted[slot]
            &&& !scan.world.disks[key].accepted.contains_key(slot) ==> key == s.key
                && scan.error is None && exists|i: int|
                0 <= i < s.evidence.records.len() && i < cases.len() && (
                #[trigger] s.evidence.records[i]).slot == slot && cases[i].verdict == Some(
                    CorruptionVerdict::CrashTail,
                )
        }),
{
    lemma_log_untouched(s, w, cases);
    let scan = s.boot_scan(w, cases);
    let rows = scan_rows(s.evidence.records, cases);
    let picked = rows_to(rows, Reaction::Discard);
    let slots = slots_of(picked);
    assert(w.disks.dom().contains(key));
    if !scan.world.disks[key].accepted.contains_key(slot) {
        assert(slots.to_set().contains(slot));
        let i = slots.index_of(slot);
        assert(picked[i].row.slot == slot);
        lemma_picked_row(rows, Reaction::Discard, i);
        let j = choose|j: int| 0 <= j < rows.len() && #[trigger] rows[j] == picked[i];
        assert(s.evidence.records[j].slot == slot);
        assert(picked[i].reacts() == Reaction::Discard);
        assert(cases[j].verdict == Some(CorruptionVerdict::CrashTail));
    }
}

proof fn lemma_picked_row(rows: Seq<ScanRow>, reaction: Reaction, i: int)
    requires
        0 <= i < rows_to(rows, reaction).len(),
    ensures
        exists|j: int| 0 <= j < rows.len() && #[trigger] rows[j] == rows_to(rows, reaction)[i],
        rows_to(rows, reaction)[i].reacts() == reaction,
    decreases rows.len(),
{
    reveal(Seq::filter);
    let front = rows.drop_last();
    if i < rows_to(front, reaction).len() {
        lemma_picked_row(front, reaction, i);
        let j = choose|j: int|
            0 <= j < front.len() && #[trigger] front[j] == rows_to(front, reaction)[i];
        assert(rows[j] == rows_to(rows, reaction)[i]);
    } else {
        assert(rows[rows.len() - 1] == rows_to(rows, reaction)[i]);
    }
}

/// A transient read error crashes the node once: the scan that surfaces it
/// clears it, so the next boot does not read it again.
pub proof fn law_read_error_is_transient(s: StorageView, w: WorldView, cases: Seq<SlotCase>)
    requires
        s.evidence.meta is None,
        s.evidence.read_eio is Some,
        w.disks.contains_key(s.key),
    ensures
        s.boot_scan(w, cases).error is Some,
        s.boot_scan(w, cases).world.disks[s.key].read_eio is None,
        s.boot_scan(w, cases).world.parked == w.parked,
{
}

/// One bad hard-state copy never takes the node down: it is repaired from its
/// twin, whatever else the scan finds.
pub proof fn law_single_promise_copy_is_repaired(s: StorageView, w: WorldView, cases: Seq<SlotCase>)
    requires
        s.evidence.meta is None,
        s.evidence.read_eio is None,
        (s.evidence.promise.0 == RecordHealth::Clean) != (s.evidence.promise.1
            == RecordHealth::Clean),
        s.evidence.chosen == RecordHealth::Clean,
        s.evidence.truncation == RecordHealth::Clean,
        forall|i: int|
            0 <= i < cases.len() && i < s.evidence.records.len() ==> #[trigger] scan_rows(
                s.evidence.records,
                cases,
            )[i].reacts() != Reaction::Crash,
        w.disks.contains_key(s.key),
    ensures
        s.boot_scan(w, cases).error is None,
{
    let rows = scan_rows(s.evidence.records, cases);
    lemma_filter_none(rows, |row: ScanRow| row.reacts() == Reaction::Crash);
}

/// With both hard-state copies bad the promise is unknowable: the scan crashes
/// and the node stays down.
pub proof fn law_lost_promise_parks_node(s: StorageView, w: WorldView, cases: Seq<SlotCase>)
    requires
        s.evidence.meta is None,
        s.evidence.read_eio is None,
        s.evidence.promise.0 != RecordHealth::Clean,
        s.evidence.promise.1 != RecordHealth::Clean,
    ensures
        s.boot_scan(w, cases).error is Some,
        s.boot_scan(w, cases).world.parked.contains(s.key),
{
}

/// What a scan does to the budget's inputs: it can only clear the booting
/// node's marks, or park that node.
pub proof fn lemma_scan_budget_inputs(s: StorageView, w: WorldView, cases: Seq<SlotCase>)
    ensures
        ({
            let after = s.boot_scan(w, cases).world;
            &&& after.cluster_size == w.cluster_size
            &&& after.marks == w.marks || after.marks == w.clear_marks(
                s.key,
                crash_tail(s.evidence.records, cases),
            ).marks
            &&& after.parked == w.parked || (s.boot_scan(w, cases).error is Some && after.parked
                == w.parked.insert(s.key) && after.marks == w.marks)
        }),
{
    let e = s.evidence;
    let start = Scan {
        storage: StorageView { evidence: EvidenceView::none(), ..s },
        world: w,
        error: None,
        app: ScanApp::Untouched,
    };
    let a = start.meta(e);
    if a.error is None {
        let b = a.read_error(e);
        if b.error is None {
            let c = b.promise(e);
            if c.error is None {
                let d = c.scalar(e.chosen, StorageRecord::ChosenIndex);
                if d.error is None {
                    let f = d.scalar(e.truncation, StorageRecord::Truncation);
                    if f.error is None {
                        let g = f.snapshot(e);
                        if e.snap_point is Some {
                            lemma_resolve_chunks_frame(
                                g.world,
                                s.node_id,
                                e.snap_point->0,
                                crate::flush::rotted_names(e.snap_chunks),
                            );
                        }
                        lemma_log_budget_inputs(g.chunks(e), e, cases);
                    }
                }
            }
        }
    }
}

proof fn lemma_log_budget_inputs(h: Scan, e: EvidenceView, cases: Seq<SlotCase>)
    requires
        h.error is None,
    ensures
        ({
            let w = h.world;
            let end = h.log(e, cases);
            let key = h.storage.key;
            &&& end.world.cluster_size == w.cluster_size
            &&& end.world.marks == w.marks || end.world.marks == w.clear_marks(
                key,
                crash_tail(e.records, cases),
            ).marks
            &&& end.world.parked == w.parked || (end.error is Some && end.world.parked
                == w.parked.insert(key) && end.world.marks == w.marks)
        }),
{
    let rows = scan_rows(e.records, cases);
    let seen = h.go_on(h.world.see_rows(rows));
    let crashed = seen.crashes(rows);
    let node = h.storage.node_id;
    let key = h.storage.key;
    let picked = rows_to(rows, Reaction::Crash);
    if picked.len() > 0 {
        lemma_resolve_slots_frame(
            seen.world.park(key, node).resolve(
                node,
                StorageRecord::Accepted(picked[0].row.slot),
                CorruptionOutcome::Crashed,
            ),
            node,
            slots_of(picked.skip(1)),
            CorruptionOutcome::CoDetected,
        );
    } else {
        let reported = crashed.reports(rows);
        lemma_resolve_slots_frame(
            crashed.world.see(crate::world::Sighting::FaultyReported),
            node,
            slots_of(rows_to(rows, Reaction::Report)),
            CorruptionOutcome::Reported,
        );
        let slots = slots_of(rows_to(rows, Reaction::Discard));
        if slots.len() > 0 {
            let w = reported.world.see(crate::world::Sighting::TornTailDiscarded).clear_marks(
                key,
                slots.to_set(),
            );
            lemma_resolve_slots_frame(
                w.mend_disk(
                    key,
                    DiskView {
                        accepted: w.disks[key].accepted.remove_keys(slots.to_set()),
                        entry_health: w.disks[key].entry_health.remove_keys(slots.to_set()),
                        ..w.disks[key]
                    },
                ),
                node,
                slots,
                CorruptionOutcome::DiscardedTail,
            );
        }
    }
}

/// A decided snapshot point reads back, chunk by chunk, once it is flushed.
pub proof fn law_synced_point_reads_back(
    w: WorldView,
    key: u64,
    node: u64,
    st: StageView,
    point: SnapPointView,
    chunk: u32,
)
    requires
        st.snap_point == Some(point),
        chunk * w.chunk_bytes < point.state.blob.len(),
    ensures
        ({
            let after = flush_world(w, key, node, st);
            &&& after.disks[key].snap_point == Some(point)
            &&& after.disks[key].chunks_clean()
            &&& chunk_read(after, key, point.at, chunk) == Some(
                chunk_bytes_of(point.state.blob, chunk as int, w.chunk_bytes),
            )
        }),
{
    let after = flush_world(w, key, node, st);
    assert(after.disks[key] == flush_disk(w.disk_or_fresh(key), st, w.chunk_bytes));
}

/// A clean re-write repairs a record: it reads back clean, the budget no longer
/// counts it lost, and its standing corruptions are resolved as recovered.
pub proof fn law_rewrite_recovers_record(w: WorldView, key: u64, node: u64, st: StageView, slot: u64)
    requires
        w.disks.contains_key(key),
        w.disks[key].entry_health.contains_key(slot),
        st.accepted.contains_key(slot),
        kept(w.disks[key], st, slot),
    ensures
        ({
            let after = flush_world(w, key, node, st);
            &&& after.disks[key].holds_clean(slot)
            &&& !after.marked(key, slot)
            &&& after.corruptions.len() == w.corruptions.len()
            &&& forall|i: int|
                0 <= i < w.corruptions.len() && (#[trigger] w.corruptions[i]).node == node
                    && w.corruptions[i].record == StorageRecord::Accepted(slot)
                    && (w.corruptions[i].outcome == CorruptionOutcome::Dormant
                    || w.corruptions[i].outcome == CorruptionOutcome::Reported) ==> after.corruptions[i].outcome == CorruptionOutcome::Recovered
        }),
{
    let after = flush_world(w, key, node, st);
    assert(after.disks[key] == flush_disk(w.disks[key], st, w.chunk_bytes));
}

} // verus!
