//! What a boot scan owes its node, read off the evidence it was handed and the
//! state it leaves: when it may go on, what the node then serves, which records
//! it asks its peers for, and what it may not touch.
use crate::disk::{DiskView, RecordHealth, SnapPointView};
use crate::flush::{chunk_name, lemma_rotted_names, rotted_names};
use crate::records::{
    Ballot, CaseFamily, CorruptionVerdict, IntegrityFault, SlotCase, StorageError, StorageRecord,
};
use crate::scan::{Reaction, Scan, ScanApp, ScanRow, rows_to, scan_rows, slots_of};
use crate::storage::{EvidenceView, StorageView};
use crate::world::{CorruptionInjection, CorruptionOutcome, Sighting, WorldView, dormant_at};
use vstd::prelude::*;

verus! {

/// The classifier answered for the retained record at `i`.
pub open spec fn classified(e: EvidenceView, cases: Seq<SlotCase>, i: int) -> bool {
    0 <= i < e.records.len() && i < cases.len()
}

/// The record at `i` is a torn tail that nobody was ever told of.
pub open spec fn torn(e: EvidenceView, cases: Seq<SlotCase>, i: int) -> bool {
    classified(e, cases, i) && cases[i].verdict == Some(CorruptionVerdict::CrashTail)
}

/// The record at `i` may be corrupt.
pub open spec fn suspect(e: EvidenceView, cases: Seq<SlotCase>, i: int) -> bool {
    classified(e, cases, i) && (cases[i].verdict == Some(CorruptionVerdict::Corrupted)
        || cases[i].verdict == Some(CorruptionVerdict::Undecidable))
}

/// The record at `i` is corrupt, and which record it was is still known.
pub open spec fn identified(e: EvidenceView, cases: Seq<SlotCase>, i: int) -> bool {
    suspect(e, cases, i) && (cases[i].family == CaseFamily::CorruptionBelowTail || cases[i].family
        == CaseFamily::IdentifierFaulty || cases[i].family == CaseFamily::LastEntryAmbiguity)
}

/// The record at `i` is corrupt, and nothing tells any more which record it was.
pub open spec fn unidentified(e: EvidenceView, cases: Seq<SlotCase>, i: int) -> bool {
    suspect(e, cases, i) && (cases[i].family == CaseFamily::IdentifierLostWithEntry
        || cases[i].family == CaseFamily::Other)
}

/// The store and its scalars leave the node a promise to keep and an index to
/// resume from.
pub open spec fn scalars_hold(e: EvidenceView) -> bool {
    &&& e.meta is None
    &&& e.read_eio is None
    &&& e.promise.0 == RecordHealth::Clean || e.promise.1 == RecordHealth::Clean
    &&& e.chosen == RecordHealth::Clean
    &&& e.truncation == RecordHealth::Clean
}

/// How a record that did not verify is described.
pub open spec fn described(health: RecordHealth, fault: IntegrityFault) -> bool {
    match fault {
        IntegrityFault::ChecksumMismatch => health == RecordHealth::Faulty,
        IntegrityFault::Misdirected => health == RecordHealth::Misdirected,
        IntegrityFault::LostWrite => health == RecordHealth::Lost,
        IntegrityFault::ReadError => false,
    }
}

/// A snapshot point of `d` that is whole and reaches the slot below `floor`.
pub open spec fn whole_point(d: DiskView, floor: u64, point: SnapPointView) -> bool {
    &&& d.snap_point == Some(point)
    &&& forall|i: int|
        0 <= i < d.snap_chunk_health.len() ==> #[trigger] d.snap_chunk_health[i]
            == RecordHealth::Clean
    &&& point.at + 1 >= floor
}

spec fn begun(s: StorageView, w: WorldView) -> Scan {
    Scan {
        storage: StorageView { evidence: EvidenceView::none(), ..s },
        world: w,
        error: None,
        app: ScanApp::Untouched,
    }
}

proof fn lemma_slots_keep(w: WorldView, node: u64, slots: Seq<u64>, outcome: CorruptionOutcome)
    ensures
        ({
            let after = w.resolve_slots(node, slots, outcome);
            after == (WorldView { corruptions: after.corruptions, seen: after.seen, ..w })
        }),
        forall|x: Sighting|
            x != Sighting::BlockDetected ==> (#[trigger] w.resolve_slots(
                node,
                slots,
                outcome,
            ).seen.contains(x) <==> w.seen.contains(x)),
    decreases slots.len(),
{
    if slots.len() > 0 {
        lemma_slots_keep(w, node, slots.drop_last(), outcome);
    }
}

proof fn lemma_chunks_keep(w: WorldView, node: u64, at: u64, chunks: Seq<u32>)
    ensures
        ({
            let after = w.resolve_chunks(node, at, chunks);
            after == (WorldView { corruptions: after.corruptions, seen: after.seen, ..w })
        }),
        forall|x: Sighting|
            x != Sighting::BlockDetected ==> (#[trigger] w.resolve_chunks(
                node,
                at,
                chunks,
            ).seen.contains(x) <==> w.seen.contains(x)),
    decreases chunks.len(),
{
    if chunks.len() > 0 {
        lemma_chunks_keep(w, node, at, chunks.drop_last());
    }
}

/// A picked row comes from the list.
proof fn lemma_picked_from(rows: Seq<ScanRow>, reaction: Reaction, i: int) -> (j: int)
    requires
        0 <= i < rows_to(rows, reaction).len(),
    ensures
        0 <= j < rows.len(),
        rows[j] == rows_to(rows, reaction)[i],
        rows[j].reacts() == reaction,
    decreases rows.len(),
{
    reveal(Seq::filter);
    let front = rows.drop_last();
    if i < rows_to(front, reaction).len() {
        let j = lemma_picked_from(front, reaction, i);
        assert(front[j] == rows[j]);
        j
    } else {
        rows.len() - 1
    }
}

/// Every row that calls for the reaction is picked.
proof fn lemma_is_picked(rows: Seq<ScanRow>, reaction: Reaction, j: int) -> (i: int)
    requires
        0 <= j < rows.len(),
        rows[j].reacts() == reaction,
    ensures
        0 <= i < rows_to(rows, reaction).len(),
        rows[j] == rows_to(rows, reaction)[i],
    decreases rows.len(),
{
    reveal(Seq::filter);
    let front = rows.drop_last();
    if j < front.len() {
        assert(front[j] == rows[j]);
        lemma_is_picked(front, reaction, j)
    } else {
        rows_to(front, reaction).len() as int
    }
}

/// The first row that calls for the reaction is picked first.
proof fn lemma_first_picked(rows: Seq<ScanRow>, reaction: Reaction, j: int)
    requires
        0 <= j < rows.len(),
        rows[j].reacts() == reaction,
        forall|h: int| 0 <= h < j ==> (#[trigger] rows[h]).reacts() != reaction,
    ensures
        rows_to(rows, reaction).len() > 0,
        rows_to(rows, reaction)[0] == rows[j],
    decreases rows.len(),
{
    reveal(Seq::filter);
    let front = rows.drop_last();
    if j < front.len() {
        assert(front[j] == rows[j]);
        assert forall|h: int| 0 <= h < j implies (#[trigger] front[h]).reacts() != reaction by {
            assert(front[h] == rows[h]);
        }
        lemma_first_picked(front, reaction, j);
    } else if rows_to(front, reaction).len() > 0 {
        let h = lemma_picked_from(front, reaction, 0);
        assert(front[h] == rows[h]);
    }
}

/// What the scalars decide.
proof fn lemma_scalars(s: StorageView, w: WorldView)
    ensures
        begun(s, w).scalars(s.evidence).error is None <==> scalars_hold(s.evidence),
        ({
            let end = begun(s, w).scalars(s.evidence);
            &&& end.storage == begun(s, w).storage
            &&& end.app == ScanApp::Untouched
            &&& scalars_hold(s.evidence) ==> {
                &&& end.world == WorldView {
                    disks: end.world.disks,
                    corruptions: end.world.corruptions,
                    seen: end.world.seen,
                    ..w
                }
                &&& end.world.disks.dom() == w.disks.dom()
                &&& forall|k: u64| #[trigger]
                    w.disks.contains_key(k) ==> end.world.disks[k] == if k == s.key
                        && s.evidence.promise != (RecordHealth::Clean, RecordHealth::Clean) {
                        DiskView {
                            promise_health: (RecordHealth::Clean, RecordHealth::Clean),
                            ..w.disks[k]
                        }
                    } else {
                        w.disks[k]
                    }
                &&& forall|x: Sighting|
                    x != Sighting::BlockDetected && x != Sighting::PromiseRepaired ==> (
                    #[trigger] end.world.seen.contains(x) <==> w.seen.contains(x))
                &&& end.world.seen.contains(Sighting::PromiseRepaired) <==> w.seen.contains(
                    Sighting::PromiseRepaired,
                ) || s.evidence.promise != (RecordHealth::Clean, RecordHealth::Clean)
            }
        }),
{
    let e = s.evidence;
    let end = begun(s, w).scalars(e);
    if scalars_hold(e) {
        assert(end.world.disks.dom() =~= w.disks.dom());
    }
}

/// A scan goes on exactly when the store reads, a promise copy, the chosen index
/// and the truncation floor verify, and every record that does not verify can
/// still be told by its identity or was never acknowledged.
pub proof fn law_scan_goes_on(s: StorageView, w: WorldView, cases: Seq<SlotCase>)
    ensures
        s.boot_scan(w, cases).error is None <==> scalars_hold(s.evidence) && forall|i: int|
            classified(s.evidence, cases, i) ==> !#[trigger] unidentified(s.evidence, cases, i),
{
    let e = s.evidence;
    lemma_scalars(s, w);
    if scalars_hold(e) {
        let f = begun(s, w).scalars(e);
        let h = f.snapshot(e).chunks(e);
        let rows = scan_rows(e.records, cases);
        if rows_to(rows, Reaction::Crash).len() > 0 {
            let j = lemma_picked_from(rows, Reaction::Crash, 0);
            assert(classified(e, cases, j) && unidentified(e, cases, j));
        } else {
            assert forall|i: int| classified(e, cases, i) implies !#[trigger] unidentified(
                e,
                cases,
                i,
            ) by {
                if unidentified(e, cases, i) {
                    let _ = lemma_is_picked(rows, Reaction::Crash, i);
                }
            }
        }
    }
}

/// A scan that stops names the first fault in reading order: the store, a record
/// that does not read, the promise with both copies bad, the chosen index, the
/// truncation floor, and last the lowest record that nothing identifies.
pub proof fn law_scan_names_the_first_fault(s: StorageView, w: WorldView, cases: Seq<SlotCase>)
    ensures
        ({
            let e = s.evidence;
            let error = s.boot_scan(w, cases).error;
            &&& e.meta is Some ==> error == Some(StorageError::Metadata { fault: e.meta->0 })
            &&& e.meta is None && e.read_eio is Some ==> error == Some(
                StorageError::Corruption {
                    record: e.read_eio->0,
                    fault: IntegrityFault::ReadError,
                    verdict: CorruptionVerdict::Corrupted,
                },
            )
            &&& e.meta is None && e.read_eio is None ==> {
                &&& e.promise.0 != RecordHealth::Clean && e.promise.1 != RecordHealth::Clean ==> (
                error matches Some(
                    StorageError::Corruption { record, fault, verdict },
                ) && record == StorageRecord::Promise && described(e.promise.0, fault) && verdict
                    == CorruptionVerdict::Corrupted)
                &&& e.promise.0 == RecordHealth::Clean || e.promise.1 == RecordHealth::Clean ==> {
                    &&& e.chosen != RecordHealth::Clean ==> (error matches Some(
                        StorageError::Corruption { record, fault, verdict },
                    ) && record == StorageRecord::ChosenIndex && described(e.chosen, fault)
                        && verdict == CorruptionVerdict::Corrupted)
                    &&& e.chosen == RecordHealth::Clean && e.truncation != RecordHealth::Clean ==> (
                    error matches Some(
                        StorageError::Corruption { record, fault, verdict },
                    ) && record == StorageRecord::Truncation && described(e.truncation, fault)
                        && verdict == CorruptionVerdict::Corrupted)
                }
            }
        }),
{
}

/// Among the records, the error names the lowest one that nothing identifies,
/// with the classifier's verdict and what its bytes show: an entry that reads
/// clean has lost its witness.
pub proof fn law_scan_names_the_lowest_lost_record(
    s: StorageView,
    w: WorldView,
    cases: Seq<SlotCase>,
    i: int,
)
    requires
        scalars_hold(s.evidence),
        unidentified(s.evidence, cases, i),
        forall|h: int| 0 <= h < i ==> !#[trigger] unidentified(s.evidence, cases, h),
    ensures
        ({
            let row = s.evidence.records[i];
            s.boot_scan(w, cases).error matches Some(
                StorageError::Corruption { record, fault, verdict },
            ) && record == StorageRecord::Accepted(row.slot) && Some(verdict) == cases[i].verdict && (
            described(row.health.entry, fault) || row.health.entry == RecordHealth::Clean && fault
                == IntegrityFault::LostWrite)
        }),
{
    let e = s.evidence;
    lemma_scalars(s, w);
    let rows = scan_rows(e.records, cases);
    assert forall|h: int| 0 <= h < i implies (#[trigger] rows[h]).reacts() != Reaction::Crash by {
        assert(!unidentified(e, cases, h));
    }
    lemma_first_picked(rows, Reaction::Crash, i);
    let h = begun(s, w).scalars(e).snapshot(e).chunks(e);
    assert(h.log(e, cases).error == Some(rows[i].error()));
}

/// What a scan that goes on leaves of the disks, and of the handle's
/// application state.
proof fn lemma_scan_leaves(s: StorageView, w: WorldView, cases: Seq<SlotCase>)
    requires
        s.boot_scan(w, cases).error is None,
    ensures
        ({
            let e = s.evidence;
            let end = s.boot_scan(w, cases);
            let mid = begun(s, w).scalars(e).snapshot(e);
            let slots = slots_of(
                rows_to(scan_rows(e.records, cases), Reaction::Discard),
            ).to_set();
            &&& end.app == mid.app
            &&& end.storage == StorageView {
                faulty_list: end.storage.faulty_list,
                faulty_chunks: end.storage.faulty_chunks,
                ..mid.storage
            }
            &&& end.world == WorldView {
                disks: end.world.disks,
                corruptions: end.world.corruptions,
                seen: end.world.seen,
                marks: end.world.marks,
                ..mid.world
            }
            &&& end.world.disks.dom() == mid.world.disks.dom()
            &&& forall|k: u64| #[trigger]
                mid.world.disks.contains_key(k) ==> end.world.disks[k] == if k == s.key {
                    DiskView {
                        accepted: mid.world.disks[k].accepted.remove_keys(slots),
                        entry_health: mid.world.disks[k].entry_health.remove_keys(slots),
                        ..mid.world.disks[k]
                    }
                } else {
                    mid.world.disks[k]
                }
            &&& end.world.marks == mid.world.clear_marks(s.key, slots).marks
        }),
{
    let e = s.evidence;
    lemma_scalars(s, w);
    let mid = begun(s, w).scalars(e).snapshot(e);
    let h = mid.chunks(e);
    let rows = scan_rows(e.records, cases);
    if e.snap_point is Some {
        lemma_chunks_keep(mid.world, s.node_id, e.snap_point->0, rotted_names(e.snap_chunks));
    }
    let seen = h.go_on(h.world.see_rows(rows));
    let crashed = seen.crashes(rows);
    assert(rows_to(rows, Reaction::Crash).len() == 0);
    let reported = crashed.reports(rows);
    lemma_slots_keep(
        crashed.world.see(Sighting::FaultyReported),
        s.node_id,
        slots_of(rows_to(rows, Reaction::Report)),
        CorruptionOutcome::Reported,
    );
    let end = reported.discards(rows);
    let list = slots_of(rows_to(rows, Reaction::Discard));
    let slots = list.to_set();
    if list.len() > 0 {
        let v = reported.world.see(Sighting::TornTailDiscarded).clear_marks(s.key, slots);
        lemma_slots_keep(
            v.mend_disk(
                s.key,
                DiskView {
                    accepted: v.disks[s.key].accepted.remove_keys(slots),
                    entry_health: v.disks[s.key].entry_health.remove_keys(slots),
                    ..v.disks[s.key]
                },
            ),
            s.node_id,
            list,
            CorruptionOutcome::DiscardedTail,
        );
    } else {
        assert(slots =~= Set::<u64>::empty());
        assert forall|k: u64| #[trigger] mid.world.disks.contains_key(k) implies mid.world.disks[k]
            == (DiskView {
            accepted: mid.world.disks[k].accepted.remove_keys(slots),
            entry_health: mid.world.disks[k].entry_health.remove_keys(slots),
            ..mid.world.disks[k]
        }) by {
            assert(mid.world.disks[k].accepted.remove_keys(slots)
                =~= mid.world.disks[k].accepted);
            assert(mid.world.disks[k].entry_health.remove_keys(slots)
                =~= mid.world.disks[k].entry_health);
        }
        if mid.world.marks.contains_key(s.key) {
            assert(mid.world.marks[s.key].difference(slots) =~= mid.world.marks[s.key]);
            assert(mid.world.clear_marks(s.key, slots).marks =~= mid.world.marks);
        }
    }
    assert(end.world.disks.dom() =~= mid.world.disks.dom());
}

/// What the snapshot phase of a scan that goes on leaves.
proof fn lemma_snapshot(s: StorageView, w: WorldView)
    requires
        scalars_hold(s.evidence),
    ensures
        ({
            let e = s.evidence;
            let mid = begun(s, w).scalars(e).snapshot(e);
            let bad = e.snapshot != RecordHealth::Clean;
            &&& mid.storage == StorageView {
                application: mid.storage.application,
                evidence: EvidenceView::none(),
                ..s
            }
            &&& mid.world == WorldView {
                disks: mid.world.disks,
                corruptions: mid.world.corruptions,
                seen: mid.world.seen,
                ..w
            }
            &&& mid.world.disks.dom() == w.disks.dom()
            &&& forall|k: u64|
                k != s.key && #[trigger] w.disks.contains_key(k) ==> mid.world.disks[k]
                    == w.disks[k]
            &&& w.disks.contains_key(s.key) ==> mid.world.disks[s.key] == DiskView {
                promise_health: mid.world.disks[s.key].promise_health,
                chain: if bad {
                    mid.storage.application
                } else {
                    w.disks[s.key].chain
                },
                snapshot_health: if bad {
                    RecordHealth::Clean
                } else {
                    w.disks[s.key].snapshot_health
                },
                ..w.disks[s.key]
            }
            &&& w.disks.contains_key(s.key) && e.promise == w.disks[s.key].promise_health
                ==> mid.world.disks[s.key].promise_health == (
                RecordHealth::Clean,
                RecordHealth::Clean,
            )
            &&& !bad ==> mid.storage.application == s.application && mid.app == ScanApp::Untouched
            &&& bad && w.disks.contains_key(s.key) ==> {
                let floor = s.boot.first_slot;
                match w.disks[s.key].point_covering(floor) {
                    Some(point) if floor > 0 => {
                        &&& mid.storage.application == point.state
                        &&& mid.app == ScanApp::Restored {
                            at: point.at,
                            floor,
                            applied_count: point.state.applied_count,
                            chain_hash: point.state.chain_hash,
                        }
                    },
                    _ => mid.storage.application == w.empty && mid.app == ScanApp::Reset { floor },
                }
            }
        }),
{
    let e = s.evidence;
    lemma_scalars(s, w);
    let f = begun(s, w).scalars(e);
    let mid = f.snapshot(e);
    assert(mid.world.disks.dom() =~= w.disks.dom());
    if w.disks.contains_key(s.key) {
        assert(f.world.disks[s.key].point_covering(s.boot.first_slot)
            == w.disks[s.key].point_covering(s.boot.first_slot));
    }
}

/// After a scan that goes on, the handle serves the application state that its
/// disk holds, whatever the scan had to do to it.
pub proof fn law_scan_serves_what_the_disk_holds(s: StorageView, w: WorldView, cases: Seq<SlotCase>)
    requires
        w.disks.contains_key(s.key),
        s.application == w.disks[s.key].chain,
        s.boot_scan(w, cases).error is None,
    ensures
        s.boot_scan(w, cases).storage.application == s.boot_scan(w, cases).world.disks[s.key].chain,
{
    lemma_scalars(s, w);
    lemma_snapshot(s, w);
    lemma_scan_leaves(s, w, cases);
}

/// A snapshot that did not verify is never served: with a truncated log and a
/// whole point that reaches the floor, the node serves exactly that point, and
/// without one it serves the empty state. A snapshot that verified is served as
/// it was.
pub proof fn law_bad_snapshot_is_never_served(s: StorageView, w: WorldView, cases: Seq<SlotCase>)
    requires
        w.disks.contains_key(s.key),
        s.boot_scan(w, cases).error is None,
    ensures
        ({
            let d = w.disks[s.key];
            let floor = s.boot.first_slot;
            let end = s.boot_scan(w, cases);
            let after = end.world.disks[s.key];
            if s.evidence.snapshot == RecordHealth::Clean {
                &&& end.storage.application == s.application
                &&& after.chain == d.chain
                &&& after.snapshot_health == d.snapshot_health
                &&& end.app == ScanApp::Untouched
            } else {
                &&& after.snapshot_health == RecordHealth::Clean
                &&& after.chain == end.storage.application
                &&& forall|point: SnapPointView| #[trigger]
                    whole_point(d, floor, point) && floor > 0 ==> {
                        &&& end.storage.application == point.state
                        &&& end.app == ScanApp::Restored {
                            at: point.at,
                            floor,
                            applied_count: point.state.applied_count,
                            chain_hash: point.state.chain_hash,
                        }
                    }
                &&& (floor == 0 || forall|point: SnapPointView| !#[trigger]
                    whole_point(d, floor, point)) ==> {
                    &&& end.storage.application == w.empty
                    &&& end.app == ScanApp::Reset { floor }
                }
            }
        }),
{
    lemma_scalars(s, w);
    lemma_snapshot(s, w);
    lemma_scan_leaves(s, w, cases);
    let d = w.disks[s.key];
    if d.snap_point is Some {
        assert(d.point_covering(s.boot.first_slot) is Some <==> whole_point(
            d,
            s.boot.first_slot,
            d.snap_point->0,
        ));
    }
}

/// A scan that goes on leaves both promise copies clean, and throws away the
/// torn records and no others, with their health and their marks.
pub proof fn law_scan_drops_only_torn_records(
    s: StorageView,
    w: WorldView,
    cases: Seq<SlotCase>,
    slot: u64,
)
    requires
        w.disks.contains_key(s.key),
        s.boot_scan(w, cases).error is None,
    ensures
        ({
            let d = w.disks[s.key];
            let end = s.boot_scan(w, cases).world;
            let dropped = exists|i: int| #[trigger]
                torn(s.evidence, cases, i) && s.evidence.records[i].slot == slot;
            &&& end.disks[s.key].accepted.contains_key(slot) <==> d.accepted.contains_key(slot)
                && !dropped
            &&& end.disks[s.key].accepted.contains_key(slot) ==> end.disks[s.key].accepted[slot]
                == d.accepted[slot]
            &&& end.disks[s.key].entry_health.contains_key(slot) <==> d.entry_health.contains_key(
                slot,
            ) && !dropped
            &&& end.disks[s.key].entry_health.contains_key(slot)
                ==> end.disks[s.key].entry_health[slot] == d.entry_health[slot]
            &&& end.marks_of(s.key).contains(slot) <==> w.marks_of(s.key).contains(slot)
                && !dropped
            &&& s.evidence.promise == d.promise_health ==> end.disks[s.key].promise_health == (
                RecordHealth::Clean,
                RecordHealth::Clean,
            )
        }),
{
    let e = s.evidence;
    lemma_scalars(s, w);
    lemma_snapshot(s, w);
    lemma_scan_leaves(s, w, cases);
    let rows = scan_rows(e.records, cases);
    let picked = rows_to(rows, Reaction::Discard);
    let slots = slots_of(picked);
    let dropped = exists|i: int| #[trigger] torn(e, cases, i) && e.records[i].slot == slot;
    if slots.contains(slot) {
        let i = choose|i: int| 0 <= i < slots.len() && slots[i] == slot;
        let j = lemma_picked_from(rows, Reaction::Discard, i);
        assert(torn(e, cases, j));
    }
    if dropped {
        let j = choose|i: int| #[trigger] torn(e, cases, i) && e.records[i].slot == slot;
        let i = lemma_is_picked(rows, Reaction::Discard, j);
        assert(slots[i] == slot);
    }
    assert(slots.to_set().contains(slot) <==> dropped);
}

/// The rest of a node's disk, the other disks, and what the handle knows of
/// itself outlive the scan untouched; nothing is parked, wiped or injected by a
/// scan that goes on. Its evidence is consumed.
pub proof fn law_scan_leaves_the_rest_alone(s: StorageView, w: WorldView, cases: Seq<SlotCase>)
    requires
        s.boot_scan(w, cases).error is None,
    ensures
        ({
            let end = s.boot_scan(w, cases);
            &&& end.world.disks.dom() == w.disks.dom()
            &&& forall|k: u64|
                k != s.key && #[trigger] w.disks.contains_key(k) ==> end.world.disks[k]
                    == w.disks[k]
            &&& forall|k: u64|
                k != s.key ==> #[trigger] end.world.marks_of(k) == w.marks_of(k)
            &&& w.disks.contains_key(s.key) ==> {
                let d = w.disks[s.key];
                let after = end.world.disks[s.key];
                &&& after.hard_state == d.hard_state
                &&& after.first_slot == d.first_slot
                &&& after.sealed == d.sealed
                &&& after.chosen_health == d.chosen_health
                &&& after.truncation_health == d.truncation_health
                &&& after.meta_fault == d.meta_fault
                &&& after.read_eio == d.read_eio
                &&& after.snap_point == d.snap_point
                &&& after.snap_chunk_health == d.snap_chunk_health
            }
            &&& end.world.parked == w.parked
            &&& end.world.parked_ids == w.parked_ids
            &&& end.world.wiped == w.wiped
            &&& end.world.injected == w.injected
            &&& end.world.matchmakers == w.matchmakers
            &&& end.world.cluster_size == w.cluster_size
            &&& end.world.unrecoverable == w.unrecoverable
            &&& end.world.held == w.held
            &&& end.storage.key == s.key
            &&& end.storage.node_id == s.node_id
            &&& end.storage.faults == s.faults
            &&& end.storage.boot == s.boot
            &&& end.storage.stage == s.stage
            &&& end.storage.evidence == EvidenceView::none()
        }),
{
    lemma_scalars(s, w);
    lemma_snapshot(s, w);
    lemma_scan_leaves(s, w, cases);
}

proof fn lemma_listed(s: StorageView, w: WorldView, cases: Seq<SlotCase>)
    requires
        s.boot_scan(w, cases).error is None,
    ensures
        ({
            let list = s.boot_scan(w, cases).storage.faulty_list;
            let picked = rows_to(scan_rows(s.evidence.records, cases), Reaction::Report);
            if picked.len() == 0 {
                list == s.faulty_list
            } else {
                list == Seq::new(
                    picked.len(),
                    |i: int| (picked[i].row.slot, picked[i].row.ballot),
                )
            }
        }),
{
    lemma_scalars(s, w);
}

/// The peers are asked for exactly the corrupt records whose identity is known,
/// each by its slot and ballot. With none, the list stays what it was.
pub proof fn law_scan_reports_the_identified_records(
    s: StorageView,
    w: WorldView,
    cases: Seq<SlotCase>,
)
    requires
        s.boot_scan(w, cases).error is None,
    ensures
        ({
            let e = s.evidence;
            let list = s.boot_scan(w, cases).storage.faulty_list;
            &&& (exists|i: int| #[trigger] identified(e, cases, i)) ==> forall|entry: (u64, Ballot)|
                #[trigger] list.contains(entry) <==> exists|i: int| #[trigger]
                    identified(e, cases, i) && entry == (e.records[i].slot, e.records[i].ballot)
            &&& (forall|i: int| !#[trigger] identified(e, cases, i)) ==> list == s.faulty_list
        }),
{
    let e = s.evidence;
    let rows = scan_rows(e.records, cases);
    let picked = rows_to(rows, Reaction::Report);
    let list = s.boot_scan(w, cases).storage.faulty_list;
    lemma_listed(s, w, cases);
    if picked.len() > 0 {
        let j = lemma_picked_from(rows, Reaction::Report, 0);
        assert(identified(e, cases, j));
        assert forall|entry: (u64, Ballot)| #[trigger] list.contains(entry) implies exists|i: int|
            #[trigger] identified(e, cases, i) && entry == (
                e.records[i].slot,
                e.records[i].ballot,
            ) by {
            let i = choose|i: int| 0 <= i < list.len() && list[i] == entry;
            let j = lemma_picked_from(rows, Reaction::Report, i);
            assert(identified(e, cases, j));
        }
        assert forall|i: int| #[trigger] identified(e, cases, i) implies list.contains(
            (e.records[i].slot, e.records[i].ballot),
        ) by {
            let j = lemma_is_picked(rows, Reaction::Report, i);
            assert(list[j] == (e.records[i].slot, e.records[i].ballot));
        }
    } else {
        assert forall|i: int| !#[trigger] identified(e, cases, i) by {
            if identified(e, cases, i) {
                let j = lemma_is_picked(rows, Reaction::Report, i);
            }
        }
    }
}

/// The peers are asked for exactly the chunks of the retained point that did not
/// verify.
pub proof fn law_scan_reports_the_rotted_chunks(s: StorageView, w: WorldView, cases: Seq<SlotCase>)
    requires
        s.boot_scan(w, cases).error is None,
        s.evidence.snap_chunks.len() <= u32::MAX,
    ensures
        ({
            let e = s.evidence;
            let list = s.boot_scan(w, cases).storage.faulty_chunks;
            let rot = e.snap_point is Some && exists|i: int|
                0 <= i < e.snap_chunks.len() && #[trigger] e.snap_chunks[i] != RecordHealth::Clean;
            &&& rot ==> forall|at: u64, chunk: u32| #[trigger]
                list.contains((at, chunk)) <==> at == e.snap_point->0 && chunk < e.snap_chunks.len()
                    && e.snap_chunks[chunk as int] != RecordHealth::Clean
            &&& !rot ==> list == s.faulty_chunks
        }),
{
    let e = s.evidence;
    lemma_scalars(s, w);
    let names = rotted_names(e.snap_chunks);
    let list = s.boot_scan(w, cases).storage.faulty_chunks;
    if e.snap_point is Some {
        let at = e.snap_point->0;
        assert forall|chunk: u32| #[trigger] names.contains(chunk) <==> chunk < e.snap_chunks.len()
            && e.snap_chunks[chunk as int] != RecordHealth::Clean by {
            lemma_rotted_names(e.snap_chunks, chunk);
            if chunk < e.snap_chunks.len() && e.snap_chunks[chunk as int] != RecordHealth::Clean {
                assert(chunk == chunk_name(chunk as int));
            }
        }
        if names.len() > 0 {
            let first = names[0];
            assert(names.contains(first));
            assert(e.snap_chunks[first as int] != RecordHealth::Clean);
            assert forall|a: u64, chunk: u32| #[trigger] list.contains((a, chunk)) <==> a == at
                && names.contains(chunk) by {
                if list.contains((a, chunk)) {
                    let i = choose|i: int| 0 <= i < list.len() && list[i] == (a, chunk);
                    assert(names[i] == chunk);
                }
                if a == at && names.contains(chunk) {
                    let i = choose|i: int| 0 <= i < names.len() && names[i] == chunk;
                    assert(list[i] == (a, chunk));
                }
            }
        } else {
            assert forall|i: int| 0 <= i < e.snap_chunks.len() implies #[trigger] e.snap_chunks[i]
                == RecordHealth::Clean by {
                let chunk = i as u32;
                if e.snap_chunks[i] != RecordHealth::Clean {
                    assert(names.contains(chunk));
                }
            }
        }
    }
}

/// A node is parked for good exactly when its promise or another scalar is lost,
/// or a record that nothing identifies is among its log: a fault of the store, a
/// read error, or anything repairable leaves it free to boot again.
pub proof fn law_scan_parks_only_the_lost(s: StorageView, w: WorldView, cases: Seq<SlotCase>)
    ensures
        ({
            let e = s.evidence;
            let end = s.boot_scan(w, cases);
            let lost = e.meta is None && e.read_eio is None && (!scalars_hold(e) || exists|i: int|
                #[trigger] unidentified(e, cases, i));
            &&& lost ==> end.world.parked == w.parked.insert(s.key) && end.world.parked_ids
                == w.parked_ids.insert(s.node_id)
            &&& !lost ==> end.world.parked == w.parked && end.world.parked_ids == w.parked_ids
        }),
{
    let e = s.evidence;
    lemma_scalars(s, w);
    law_scan_goes_on(s, w, cases);
    if s.boot_scan(w, cases).error is None {
        lemma_scan_leaves(s, w, cases);
        assert forall|i: int| !#[trigger] unidentified(e, cases, i) by {
            if unidentified(e, cases, i) {
                assert(classified(e, cases, i));
            }
        }
    } else if scalars_hold(e) {
        let i = choose|i: int| classified(e, cases, i) && #[trigger] unidentified(e, cases, i);
        assert(unidentified(e, cases, i));
        let mid = begun(s, w).scalars(e).snapshot(e);
        let h = mid.chunks(e);
        let rows = scan_rows(e.records, cases);
        if e.snap_point is Some {
            lemma_chunks_keep(mid.world, s.node_id, e.snap_point->0, rotted_names(e.snap_chunks));
        }
        let seen = h.go_on(h.world.see_rows(rows));
        let picked = rows_to(rows, Reaction::Crash);
        lemma_slots_keep(
            seen.world.park(s.key, s.node_id).resolve(
                s.node_id,
                StorageRecord::Accepted(picked[0].row.slot),
                CorruptionOutcome::Crashed,
            ),
            s.node_id,
            slots_of(picked.skip(1)),
            CorruptionOutcome::CoDetected,
        );
    }
}

/// The entries of a ledger whose outcome a read or a re-write may change keep
/// everything else.
pub open spec fn same_injection(a: CorruptionInjection, b: CorruptionInjection) -> bool {
    a.node == b.node && a.record == b.record && a.kind == b.kind && a.block == b.block
}

/// Everything that is settled in `before`, and everything of other nodes, is as
/// it was in `after`.
pub open spec fn only_settles(before: WorldView, after: WorldView, node: u64) -> bool {
    &&& after.corruptions.len() == before.corruptions.len()
    &&& forall|i: int|
        #![trigger after.corruptions[i]]
        #![trigger before.corruptions[i]]
        0 <= i < before.corruptions.len() ==> {
            &&& same_injection(before.corruptions[i], after.corruptions[i])
            &&& before.corruptions[i].node != node ==> after.corruptions[i] == before.corruptions[i]
            &&& before.corruptions[i].outcome != CorruptionOutcome::Dormant
                ==> after.corruptions[i] == before.corruptions[i]
        }
}

/// The entry at `i` is an unread one on this record of this node.
pub open spec fn unread_on(w: WorldView, node: u64, record: StorageRecord, i: int) -> bool {
    &&& 0 <= i < w.corruptions.len()
    &&& w.corruptions[i].node == node
    &&& w.corruptions[i].record == record
    &&& w.corruptions[i].outcome == CorruptionOutcome::Dormant
}

proof fn lemma_settles_in_turn(a: WorldView, b: WorldView, c: WorldView, node: u64)
    requires
        only_settles(a, b, node),
        only_settles(b, c, node),
    ensures
        only_settles(a, c, node),
{
    assert forall|i: int|
        #![trigger c.corruptions[i]]
        #![trigger a.corruptions[i]]
        0 <= i < a.corruptions.len() implies {
        &&& same_injection(a.corruptions[i], c.corruptions[i])
        &&& a.corruptions[i].node != node ==> c.corruptions[i] == a.corruptions[i]
        &&& a.corruptions[i].outcome != CorruptionOutcome::Dormant ==> c.corruptions[i]
            == a.corruptions[i]
    } by {
        let _ = b.corruptions[i];
    }
}

proof fn lemma_slots_settle(w: WorldView, node: u64, slots: Seq<u64>, outcome: CorruptionOutcome)
    requires
        outcome != CorruptionOutcome::Dormant,
    ensures
        ({
            let after = w.resolve_slots(node, slots, outcome);
            &&& only_settles(w, after, node)
            &&& forall|i: int|
                0 <= i < w.corruptions.len() && (#[trigger] w.corruptions[i]).outcome
                    == CorruptionOutcome::Dormant && w.corruptions[i].node == node ==> {
                    let read = w.corruptions[i].record matches StorageRecord::Accepted(slot)
                        && slots.contains(slot);
                    &&& read ==> after.corruptions[i].outcome == outcome
                        || after.corruptions[i].outcome == CorruptionOutcome::CoDetected
                    &&& !read ==> after.corruptions[i] == w.corruptions[i]
                }
        }),
    decreases slots.len(),
{
    if slots.len() > 0 {
        let front = slots.drop_last();
        lemma_slots_settle(w, node, front, outcome);
        let mid = w.resolve_slots(node, front, outcome);
        let after = w.resolve_slots(node, slots, outcome);
        assert(only_settles(mid, after, node));
        lemma_settles_in_turn(w, mid, after, node);
        assert forall|i: int|
            0 <= i < w.corruptions.len() && (#[trigger] w.corruptions[i]).outcome
                == CorruptionOutcome::Dormant && w.corruptions[i].node == node implies {
            let read = w.corruptions[i].record matches StorageRecord::Accepted(slot)
                && slots.contains(slot);
            &&& read ==> after.corruptions[i].outcome == outcome || after.corruptions[i].outcome
                == CorruptionOutcome::CoDetected
            &&& !read ==> after.corruptions[i] == w.corruptions[i]
        } by {
            if let StorageRecord::Accepted(slot) = w.corruptions[i].record {
                if slots.contains(slot) {
                    let j = choose|j: int| 0 <= j < slots.len() && slots[j] == slot;
                    if j < front.len() {
                        assert(front[j] == slot);
                        assert(front.contains(slot));
                    }
                }
                if front.contains(slot) {
                    let j = choose|j: int| 0 <= j < front.len() && front[j] == slot;
                    assert(slots[j] == slot);
                }
                if slot == slots.last() {
                    assert(slots[slots.len() - 1] == slot);
                }
            }
            let _ = mid.corruptions[i];
        }
    }
}

/// What the log phase makes of an unread injection on an accepted record.
proof fn lemma_log_settles(h: Scan, e: EvidenceView, cases: Seq<SlotCase>, slot: u64, i: int)
    requires
        h.error is None,
        h.log(e, cases).error is None,
        unread_on(h.world, h.storage.node_id, StorageRecord::Accepted(slot), i),
    ensures
        ({
            let rows = scan_rows(e.records, cases);
            let now = h.log(e, cases).world.corruptions[i];
            let reported = slots_of(rows_to(rows, Reaction::Report)).contains(slot);
            let dropped = slots_of(rows_to(rows, Reaction::Discard)).contains(slot);
            &&& same_injection(h.world.corruptions[i], now)
            &&& reported ==> now.outcome == CorruptionOutcome::Reported || now.outcome
                == CorruptionOutcome::CoDetected
            &&& !reported && dropped ==> now.outcome == CorruptionOutcome::DiscardedTail
                || now.outcome == CorruptionOutcome::CoDetected
            &&& !reported && !dropped ==> now.outcome == CorruptionOutcome::Dormant
        }),
{
    let key = h.storage.key;
    let node = h.storage.node_id;
    let rows = scan_rows(e.records, cases);
    let report = slots_of(rows_to(rows, Reaction::Report));
    let drop = slots_of(rows_to(rows, Reaction::Discard));
    let seen = h.go_on(h.world.see_rows(rows));
    assert(rows_to(rows, Reaction::Crash).len() == 0);
    assert(seen.crashes(rows) == seen);
    let a = seen.world.see(Sighting::FaultyReported);
    lemma_slots_settle(a, node, report, CorruptionOutcome::Reported);
    assert(a.corruptions == h.world.corruptions);
    let told = seen.reports(rows);
    assert(a.corruptions[i] == h.world.corruptions[i]);
    if report.len() == 0 {
        assert(told.world.corruptions == h.world.corruptions);
        assert(!report.contains(slot));
    } else {
        assert(told.world == a.resolve_slots(node, report, CorruptionOutcome::Reported));
    }
    let b = told.world.see(Sighting::TornTailDiscarded).clear_marks(key, drop.to_set());
    let c = b.mend_disk(
        key,
        DiskView {
            accepted: b.disks[key].accepted.remove_keys(drop.to_set()),
            entry_health: b.disks[key].entry_health.remove_keys(drop.to_set()),
            ..b.disks[key]
        },
    );
    assert(c.corruptions == told.world.corruptions);
    lemma_slots_settle(c, node, drop, CorruptionOutcome::DiscardedTail);
    let end = told.discards(rows);
    if drop.len() == 0 {
        assert(end == told);
        assert(!drop.contains(slot));
    } else {
        assert(end.world == c.resolve_slots(node, drop, CorruptionOutcome::DiscardedTail));
        assert(c.corruptions[i] == told.world.corruptions[i]);
    }
    assert(h.log(e, cases) == end);
}

/// A scan that goes on reads back the reported and the dropped records: none of
/// their injections stays unread, and what became of them says which it was.
/// Injections on records that it kept stay as they were.
pub proof fn law_scan_settles_what_it_read(
    s: StorageView,
    w: WorldView,
    cases: Seq<SlotCase>,
    slot: u64,
    i: int,
)
    requires
        s.boot_scan(w, cases).error is None,
        unread_on(w, s.node_id, StorageRecord::Accepted(slot), i),
    ensures
        ({
            let e = s.evidence;
            let now = s.boot_scan(w, cases).world.corruptions[i];
            let reported = exists|j: int| #[trigger]
                identified(e, cases, j) && e.records[j].slot == slot;
            let dropped = exists|j: int| #[trigger] torn(e, cases, j) && e.records[j].slot == slot;
            &&& same_injection(w.corruptions[i], now)
            &&& reported ==> now.outcome == CorruptionOutcome::Reported || now.outcome
                == CorruptionOutcome::CoDetected
            &&& !reported && dropped ==> now.outcome == CorruptionOutcome::DiscardedTail
                || now.outcome == CorruptionOutcome::CoDetected
            &&& !reported && !dropped ==> now.outcome == CorruptionOutcome::Dormant
        }),
{
    let e = s.evidence;
    lemma_scalars(s, w);
    let f = begun(s, w).scalars(e);
    let mid = f.snapshot(e);
    let h = mid.chunks(e);
    assert(f.world.corruptions[i] == w.corruptions[i]);
    assert(mid.world.corruptions[i] == w.corruptions[i]);
    if e.snap_point is Some {
        lemma_chunks_spare_entries(
            mid.world,
            s.node_id,
            e.snap_point->0,
            rotted_names(e.snap_chunks),
            i,
        );
    }
    assert(h.world.corruptions[i] == w.corruptions[i]);
    assert(s.boot_scan(w, cases) == h.log(e, cases));
    lemma_log_settles(h, e, cases, slot, i);
    lemma_reported_slots(e, cases, slot);
    lemma_dropped_slots(e, cases, slot);
}

proof fn lemma_chunks_spare_entries(w: WorldView, node: u64, at: u64, chunks: Seq<u32>, i: int)
    requires
        0 <= i < w.corruptions.len(),
        w.corruptions[i].record is Accepted,
    ensures
        w.resolve_chunks(node, at, chunks).corruptions.len() == w.corruptions.len(),
        w.resolve_chunks(node, at, chunks).corruptions[i] == w.corruptions[i],
    decreases chunks.len(),
{
    if chunks.len() > 0 {
        lemma_chunks_spare_entries(w, node, at, chunks.drop_last(), i);
    }
}

proof fn lemma_reported_slots(e: EvidenceView, cases: Seq<SlotCase>, slot: u64)
    ensures
        slots_of(rows_to(scan_rows(e.records, cases), Reaction::Report)).contains(slot) <==> exists|
            j: int,
        | #[trigger] identified(e, cases, j) && e.records[j].slot == slot,
{
    let rows = scan_rows(e.records, cases);
    let slots = slots_of(rows_to(rows, Reaction::Report));
    if slots.contains(slot) {
        let i = choose|i: int| 0 <= i < slots.len() && slots[i] == slot;
        let j = lemma_picked_from(rows, Reaction::Report, i);
        assert(identified(e, cases, j));
    }
    if exists|j: int| #[trigger] identified(e, cases, j) && e.records[j].slot == slot {
        let j = choose|j: int| #[trigger] identified(e, cases, j) && e.records[j].slot == slot;
        let i = lemma_is_picked(rows, Reaction::Report, j);
        assert(slots[i] == slot);
    }
}

proof fn lemma_dropped_slots(e: EvidenceView, cases: Seq<SlotCase>, slot: u64)
    ensures
        slots_of(rows_to(scan_rows(e.records, cases), Reaction::Discard)).contains(slot) <==> exists|
            j: int,
        | #[trigger] torn(e, cases, j) && e.records[j].slot == slot,
{
    let rows = scan_rows(e.records, cases);
    let slots = slots_of(rows_to(rows, Reaction::Discard));
    if slots.contains(slot) {
        let i = choose|i: int| 0 <= i < slots.len() && slots[i] == slot;
        let j = lemma_picked_from(rows, Reaction::Discard, i);
        assert(torn(e, cases, j));
    }
    if exists|j: int| #[trigger] torn(e, cases, j) && e.records[j].slot == slot {
        let j = choose|j: int| #[trigger] torn(e, cases, j) && e.records[j].slot == slot;
        let i = lemma_is_picked(rows, Reaction::Discard, j);
        assert(slots[i] == slot);
    }
}

/// The record at `i` did not verify.
pub open spec fn flagged(e: EvidenceView, cases: Seq<SlotCase>, i: int) -> bool {
    classified(e, cases, i) && cases[i].verdict is Some
}

/// What a scan that goes on notes of the store: the repaired promise, the detected
/// snapshot and how it was reset, the records reported and dropped. It notes each
/// exactly where it happened.
pub proof fn law_scan_notes_what_it_did(s: StorageView, w: WorldView, cases: Seq<SlotCase>)
    requires
        s.boot_scan(w, cases).error is None,
        w.disks.contains_key(s.key),
    ensures
        ({
            let e = s.evidence;
            let seen = s.boot_scan(w, cases).world.seen;
            let bad = e.snapshot != RecordHealth::Clean;
            let floor = s.boot.first_slot;
            &&& seen.contains(Sighting::PromiseRepaired) <==> w.seen.contains(
                Sighting::PromiseRepaired,
            ) || e.promise != (RecordHealth::Clean, RecordHealth::Clean)
            &&& seen.contains(Sighting::SnapshotDetected) <==> w.seen.contains(
                Sighting::SnapshotDetected,
            ) || bad
            &&& seen.contains(Sighting::SnapshotResetLocal) <==> w.seen.contains(
                Sighting::SnapshotResetLocal,
            ) || bad && floor == 0
            &&& seen.contains(Sighting::SnapshotResetRemote) <==> w.seen.contains(
                Sighting::SnapshotResetRemote,
            ) || bad && floor > 0 && forall|point: SnapPointView| !#[trigger]
                whole_point(w.disks[s.key], floor, point)
            &&& seen.contains(Sighting::FaultyReported) <==> w.seen.contains(
                Sighting::FaultyReported,
            ) || exists|i: int| #[trigger] identified(e, cases, i)
            &&& seen.contains(Sighting::TornTailDiscarded) <==> w.seen.contains(
                Sighting::TornTailDiscarded,
            ) || exists|i: int| #[trigger] torn(e, cases, i)
            &&& seen.contains(Sighting::MetadataCrashed) <==> w.seen.contains(
                Sighting::MetadataCrashed,
            )
            &&& seen.contains(Sighting::ReadEioDetected) <==> w.seen.contains(
                Sighting::ReadEioDetected,
            )
        }),
{
    let e = s.evidence;
    let floor = s.boot.first_slot;
    lemma_scalars(s, w);
    let f = begun(s, w).scalars(e);
    let mid = f.snapshot(e);
    let h = mid.chunks(e);
    let d = w.disks[s.key];
    assert(f.world.disks[s.key].point_covering(floor) == d.point_covering(floor));
    if d.snap_point is Some {
        assert(d.point_covering(floor) is Some <==> whole_point(d, floor, d.snap_point->0));
    }
    let bad = e.snapshot != RecordHealth::Clean;
    assert(mid.world.seen.contains(Sighting::SnapshotResetRemote) <==> w.seen.contains(
        Sighting::SnapshotResetRemote,
    ) || bad && floor > 0 && d.point_covering(floor) is None);
    assert(mid.world.seen.contains(Sighting::SnapshotResetLocal) <==> w.seen.contains(
        Sighting::SnapshotResetLocal,
    ) || bad && floor == 0);
    if e.snap_point is Some {
        lemma_chunks_keep(mid.world, s.node_id, e.snap_point->0, rotted_names(e.snap_chunks));
    }
    lemma_log_notes(h, e, cases);
    assert(s.boot_scan(w, cases) == h.log(e, cases));
}

/// What the log phase notes, of what the store's own records show.
proof fn lemma_log_notes(h: Scan, e: EvidenceView, cases: Seq<SlotCase>)
    requires
        h.error is None,
        h.log(e, cases).error is None,
    ensures
        ({
            let seen = h.log(e, cases).world.seen;
            let was = h.world.seen;
            &&& seen.contains(Sighting::FaultyReported) <==> was.contains(Sighting::FaultyReported)
                || exists|i: int| #[trigger] identified(e, cases, i)
            &&& seen.contains(Sighting::TornTailDiscarded) <==> was.contains(
                Sighting::TornTailDiscarded,
            ) || exists|i: int| #[trigger] torn(e, cases, i)
            &&& forall|x: Sighting|
                #![trigger seen.contains(x)]
                x != Sighting::BlockDetected && x != Sighting::FaultyReported && x
                    != Sighting::TornTailDiscarded ==> (seen.contains(x) <==> was.contains(x)
                    || exists|i: int|
                    0 <= i < scan_rows(e.records, cases).len() && (#[trigger] scan_rows(
                        e.records,
                        cases,
                    )[i]).shows(x))
        }),
{
    let key = h.storage.key;
    let node = h.storage.node_id;
    let rows = scan_rows(e.records, cases);
    let report = slots_of(rows_to(rows, Reaction::Report));
    let drop = slots_of(rows_to(rows, Reaction::Discard));
    let seen = h.go_on(h.world.see_rows(rows));
    assert(rows_to(rows, Reaction::Crash).len() == 0);
    assert(seen.crashes(rows) == seen);
    let a = seen.world.see(Sighting::FaultyReported);
    lemma_slots_keep(a, node, report, CorruptionOutcome::Reported);
    let told = seen.reports(rows);
    let b = told.world.see(Sighting::TornTailDiscarded).clear_marks(key, drop.to_set());
    let c = b.mend_disk(
        key,
        DiskView {
            accepted: b.disks[key].accepted.remove_keys(drop.to_set()),
            entry_health: b.disks[key].entry_health.remove_keys(drop.to_set()),
            ..b.disks[key]
        },
    );
    lemma_slots_keep(c, node, drop, CorruptionOutcome::DiscardedTail);
    let end = told.discards(rows);
    assert(h.log(e, cases) == end);
    assert(report.len() > 0 <==> exists|i: int| #[trigger] identified(e, cases, i)) by {
        if report.len() > 0 {
            let j = lemma_picked_from(rows, Reaction::Report, 0);
            assert(identified(e, cases, j));
        }
        if exists|i: int| #[trigger] identified(e, cases, i) {
            let j = choose|i: int| #[trigger] identified(e, cases, i);
            let _ = lemma_is_picked(rows, Reaction::Report, j);
        }
    }
    assert(drop.len() > 0 <==> exists|i: int| #[trigger] torn(e, cases, i)) by {
        if drop.len() > 0 {
            let j = lemma_picked_from(rows, Reaction::Discard, 0);
            assert(torn(e, cases, j));
        }
        if exists|i: int| #[trigger] torn(e, cases, i) {
            let j = choose|i: int| #[trigger] torn(e, cases, i);
            let _ = lemma_is_picked(rows, Reaction::Discard, j);
        }
    }
    assert forall|i: int| 0 <= i < rows.len() implies !(#[trigger] rows[i]).shows(
        Sighting::FaultyReported,
    ) && !rows[i].shows(Sighting::TornTailDiscarded) by {}
}

/// What a scan that goes on notes of the records: for each way a record may have
/// failed to verify, it is noted exactly where some classified record did so.
pub proof fn law_scan_notes_how_records_failed(s: StorageView, w: WorldView, cases: Seq<SlotCase>)
    requires
        s.boot_scan(w, cases).error is None,
    ensures
        ({
            let e = s.evidence;
            let seen = s.boot_scan(w, cases).world.seen;
            &&& seen.contains(Sighting::BitFlipDetected) <==> w.seen.contains(
                Sighting::BitFlipDetected,
            ) || exists|i: int| #[trigger]
                flagged(e, cases, i) && e.records[i].health.entry == RecordHealth::Faulty
            &&& seen.contains(Sighting::LostWriteDetected) <==> w.seen.contains(
                Sighting::LostWriteDetected,
            ) || exists|i: int| #[trigger]
                flagged(e, cases, i) && e.records[i].health.entry == RecordHealth::Lost
            &&& seen.contains(Sighting::MisdirectedDetected) <==> w.seen.contains(
                Sighting::MisdirectedDetected,
            ) || exists|i: int| #[trigger]
                flagged(e, cases, i) && e.records[i].health.entry == RecordHealth::Misdirected
            &&& seen.contains(Sighting::CorruptionBelowTail) <==> w.seen.contains(
                Sighting::CorruptionBelowTail,
            ) || exists|i: int| #[trigger]
                flagged(e, cases, i) && cases[i].family == CaseFamily::CorruptionBelowTail
            &&& seen.contains(Sighting::LastEntryAmbiguity) <==> w.seen.contains(
                Sighting::LastEntryAmbiguity,
            ) || exists|i: int| #[trigger]
                flagged(e, cases, i) && cases[i].family == CaseFamily::LastEntryAmbiguity
        }),
{
    let e = s.evidence;
    lemma_scalars(s, w);
    let f = begun(s, w).scalars(e);
    let mid = f.snapshot(e);
    let h = mid.chunks(e);
    if e.snap_point is Some {
        lemma_chunks_keep(mid.world, s.node_id, e.snap_point->0, rotted_names(e.snap_chunks));
    }
    lemma_log_notes(h, e, cases);
    assert(s.boot_scan(w, cases) == h.log(e, cases));
    lemma_shown(e, cases, Sighting::BitFlipDetected);
    lemma_shown(e, cases, Sighting::LostWriteDetected);
    lemma_shown(e, cases, Sighting::MisdirectedDetected);
    lemma_shown(e, cases, Sighting::CorruptionBelowTail);
    lemma_shown(e, cases, Sighting::LastEntryAmbiguity);
}

/// The record at `i` fails in the way that `x` stands for.
spec fn fails_by(e: EvidenceView, cases: Seq<SlotCase>, i: int, x: Sighting) -> bool {
    match x {
        Sighting::BitFlipDetected => e.records[i].health.entry == RecordHealth::Faulty,
        Sighting::LostWriteDetected => e.records[i].health.entry == RecordHealth::Lost,
        Sighting::MisdirectedDetected => e.records[i].health.entry == RecordHealth::Misdirected,
        Sighting::CorruptionBelowTail => cases[i].family == CaseFamily::CorruptionBelowTail,
        Sighting::LastEntryAmbiguity => cases[i].family == CaseFamily::LastEntryAmbiguity,
        _ => false,
    }
}

proof fn lemma_shown(e: EvidenceView, cases: Seq<SlotCase>, x: Sighting)
    requires
        x == Sighting::BitFlipDetected || x == Sighting::LostWriteDetected || x
            == Sighting::MisdirectedDetected || x == Sighting::CorruptionBelowTail || x
            == Sighting::LastEntryAmbiguity,
    ensures
        (exists|i: int|
            0 <= i < scan_rows(e.records, cases).len() && (#[trigger] scan_rows(
                e.records,
                cases,
            )[i]).shows(x)) <==> exists|i: int| #[trigger]
            flagged(e, cases, i) && fails_by(e, cases, i, x),
{
    let rows = scan_rows(e.records, cases);
    if exists|i: int| 0 <= i < rows.len() && (#[trigger] rows[i]).shows(x) {
        let i = choose|i: int| 0 <= i < rows.len() && (#[trigger] rows[i]).shows(x);
        assert(flagged(e, cases, i) && fails_by(e, cases, i, x));
    }
    if exists|i: int| #[trigger] flagged(e, cases, i) && fails_by(e, cases, i, x) {
        let i = choose|i: int| #[trigger] flagged(e, cases, i) && fails_by(e, cases, i, x);
        assert(rows[i].shows(x));
    }
}

/// The entry at `i` surfaced as a crash decision.
pub open spec fn crashed_at(w: WorldView, i: int) -> bool {
    0 <= i < w.corruptions.len() && w.corruptions[i].outcome == CorruptionOutcome::Crashed
}

/// `after` has the crash decisions of `before`, and at most one more.
pub open spec fn crashes_once(before: WorldView, after: WorldView) -> bool {
    &&& after.corruptions.len() == before.corruptions.len()
    &&& forall|i: int| #[trigger] crashed_at(before, i) ==> crashed_at(after, i)
    &&& forall|i: int, j: int|
        #[trigger] crashed_at(after, i) && #[trigger] crashed_at(after, j) && !crashed_at(before, i)
            && !crashed_at(before, j) ==> i == j
}

proof fn lemma_resolve_crashes(w: WorldView, node: u64, record: StorageRecord, outcome: CorruptionOutcome)
    ensures
        crashes_once(w, w.resolve(node, record, outcome)),
        outcome != CorruptionOutcome::Crashed ==> forall|i: int|
            #[trigger] crashed_at(w.resolve(node, record, outcome), i) ==> crashed_at(w, i),
{
    let after = w.resolve(node, record, outcome);
    assert forall|i: int, j: int|
        #[trigger] crashed_at(after, i) && #[trigger] crashed_at(after, j) && !crashed_at(w, i)
            && !crashed_at(w, j) implies i == j by {
        assert(dormant_at(w.corruptions, node, record, i));
        assert(dormant_at(w.corruptions, node, record, j));
    }
}

proof fn lemma_slots_crash_nothing(w: WorldView, node: u64, slots: Seq<u64>, outcome: CorruptionOutcome)
    requires
        outcome != CorruptionOutcome::Crashed,
    ensures
        ({
            let after = w.resolve_slots(node, slots, outcome);
            &&& after.corruptions.len() == w.corruptions.len()
            &&& forall|i: int| #[trigger] crashed_at(after, i) <==> crashed_at(w, i)
        }),
    decreases slots.len(),
{
    if slots.len() > 0 {
        let front = slots.drop_last();
        lemma_slots_crash_nothing(w, node, front, outcome);
        let mid = w.resolve_slots(node, front, outcome);
        let record = StorageRecord::Accepted(slots.last());
        lemma_resolve_crashes(mid, node, record, outcome);
        let after = w.resolve_slots(node, slots, outcome);
        assert(after == mid.resolve(node, record, outcome));
        assert forall|i: int| #[trigger] crashed_at(after, i) <==> crashed_at(w, i) by {
            assert(crashed_at(mid, i) <==> crashed_at(w, i));
            assert(crashed_at(mid, i) ==> crashed_at(after, i));
        }
    }
}

proof fn lemma_chunks_crash_nothing(w: WorldView, node: u64, at: u64, chunks: Seq<u32>)
    ensures
        ({
            let after = w.resolve_chunks(node, at, chunks);
            &&& after.corruptions.len() == w.corruptions.len()
            &&& forall|i: int| #[trigger] crashed_at(after, i) <==> crashed_at(w, i)
        }),
    decreases chunks.len(),
{
    if chunks.len() > 0 {
        let front = chunks.drop_last();
        lemma_chunks_crash_nothing(w, node, at, front);
        let mid = w.resolve_chunks(node, at, front);
        let record = StorageRecord::SnapChunk(at, chunks.last());
        lemma_resolve_crashes(mid, node, record, CorruptionOutcome::Reported);
        let after = w.resolve_chunks(node, at, chunks);
        assert(after == mid.resolve(node, record, CorruptionOutcome::Reported));
        assert forall|i: int| #[trigger] crashed_at(after, i) <==> crashed_at(w, i) by {
            assert(crashed_at(mid, i) <==> crashed_at(w, i));
            assert(crashed_at(mid, i) ==> crashed_at(after, i));
        }
    }
}

proof fn lemma_scalars_crash(s: StorageView, w: WorldView)
    ensures
        crashes_once(w, begun(s, w).scalars(s.evidence).world),
        scalars_hold(s.evidence) ==> forall|i: int| #[trigger]
            crashed_at(begun(s, w).scalars(s.evidence).world, i) ==> crashed_at(w, i),
{
    let e = s.evidence;
    let node = s.node_id;
    let end = begun(s, w).scalars(e);
    if e.meta is Some {
        let v = w.see(Sighting::MetadataCrashed);
        lemma_resolve_crashes(v, node, StorageRecord::Store, CorruptionOutcome::Crashed);
        assert(forall|i: int| #[trigger] crashed_at(v, i) == crashed_at(w, i));
    } else if e.read_eio is Some {
        let v = w.see(Sighting::ReadEioDetected);
        let u = v.mend_disk(s.key, DiskView { read_eio: None, ..v.disks[s.key] });
        lemma_resolve_crashes(u, node, e.read_eio->0, CorruptionOutcome::Crashed);
        assert(forall|i: int| #[trigger] crashed_at(u, i) == crashed_at(w, i));
    } else if e.promise.0 != RecordHealth::Clean && e.promise.1 != RecordHealth::Clean {
        lemma_resolve_crashes(w, node, StorageRecord::Promise, CorruptionOutcome::Crashed);
        let u = w.resolve(node, StorageRecord::Promise, CorruptionOutcome::Crashed);
        assert(forall|i: int| #[trigger] crashed_at(end.world, i) == crashed_at(u, i));
    } else {
        let c = begun(s, w).promise(e);
        if e.promise == (RecordHealth::Clean, RecordHealth::Clean) {
            assert(c.world == w);
        } else {
            let v = w.see(Sighting::PromiseRepaired);
            let u = v.mend_disk(
                s.key,
                DiskView {
                    promise_health: (RecordHealth::Clean, RecordHealth::Clean),
                    ..v.disks[s.key]
                },
            );
            lemma_resolve_crashes(u, node, StorageRecord::Promise, CorruptionOutcome::Repaired);
            assert(forall|i: int| #[trigger] crashed_at(u, i) == crashed_at(w, i));
        }
        assert(forall|i: int| #[trigger] crashed_at(c.world, i) == crashed_at(w, i));
        let p = c.world.park(s.key, node);
        assert(forall|i: int| #[trigger] crashed_at(p, i) == crashed_at(w, i));
        lemma_resolve_crashes(p, node, StorageRecord::ChosenIndex, CorruptionOutcome::Crashed);
        lemma_resolve_crashes(p, node, StorageRecord::Truncation, CorruptionOutcome::Crashed);
    }
}

/// However much a scan finds, it surfaces as one crash at most: a scan that goes on
/// adds no crash decision to the books, and one that stops adds no more than one.
/// None that stood before is taken back.
pub proof fn law_scan_crashes_once(s: StorageView, w: WorldView, cases: Seq<SlotCase>)
    ensures
        crashes_once(w, s.boot_scan(w, cases).world),
        s.boot_scan(w, cases).error is None ==> forall|i: int| #[trigger]
            crashed_at(s.boot_scan(w, cases).world, i) <==> crashed_at(w, i),
{
    let e = s.evidence;
    let node = s.node_id;
    lemma_scalars(s, w);
    lemma_scalars_crash(s, w);
    if scalars_hold(e) {
        let f = begun(s, w).scalars(e);
        assert(forall|i: int| #[trigger] crashed_at(f.world, i) == crashed_at(w, i));
        let mid = f.snapshot(e);
        assert(mid.world.corruptions.len() == w.corruptions.len());
        assert(forall|i: int| #[trigger] crashed_at(mid.world, i) == crashed_at(f.world, i));
        let h = mid.chunks(e);
        if e.snap_point is Some {
            lemma_chunks_crash_nothing(
                mid.world,
                node,
                e.snap_point->0,
                rotted_names(e.snap_chunks),
            );
        }
        assert(forall|i: int| #[trigger] crashed_at(h.world, i) == crashed_at(w, i));
        let rows = scan_rows(e.records, cases);
        let seen = h.go_on(h.world.see_rows(rows));
        assert forall|i: int| #[trigger] crashed_at(seen.world, i) == crashed_at(w, i) by {
            assert(crashed_at(h.world, i) == crashed_at(w, i));
        }
        let picked = rows_to(rows, Reaction::Crash);
        let end = s.boot_scan(w, cases);
        assert(end == h.log(e, cases));
        if picked.len() > 0 {
            let p = seen.world.park(s.key, node);
            let record = StorageRecord::Accepted(picked[0].row.slot);
            assert forall|i: int| #[trigger] crashed_at(p, i) == crashed_at(w, i) by {
                assert(crashed_at(seen.world, i) == crashed_at(w, i));
            }
            lemma_resolve_crashes(p, node, record, CorruptionOutcome::Crashed);
            let q = p.resolve(node, record, CorruptionOutcome::Crashed);
            lemma_slots_crash_nothing(
                q,
                node,
                slots_of(picked.skip(1)),
                CorruptionOutcome::CoDetected,
            );
            assert(forall|i: int| #[trigger] crashed_at(end.world, i) == crashed_at(q, i));
            assert(h.world.corruptions.len() == w.corruptions.len());
            assert(end.world.corruptions.len() == w.corruptions.len());
            assert forall|i: int| #[trigger] crashed_at(w, i) implies crashed_at(end.world, i) by {
                assert(crashed_at(p, i));
                assert(crashed_at(q, i));
            }
            assert forall|i: int, j: int|
                #[trigger] crashed_at(end.world, i) && #[trigger] crashed_at(end.world, j)
                    && !crashed_at(w, i) && !crashed_at(w, j) implies i == j by {
                assert(crashed_at(q, i) && crashed_at(q, j));
                assert(!crashed_at(p, i) && !crashed_at(p, j));
            }
        } else {
            let report = slots_of(rows_to(rows, Reaction::Report));
            let drop = slots_of(rows_to(rows, Reaction::Discard));
            let a = seen.world.see(Sighting::FaultyReported);
            assert forall|i: int| #[trigger] crashed_at(a, i) == crashed_at(w, i) by {
                assert(crashed_at(seen.world, i) == crashed_at(w, i));
            }
            lemma_slots_crash_nothing(a, node, report, CorruptionOutcome::Reported);
            let told = seen.reports(rows);
            assert forall|i: int| #[trigger] crashed_at(told.world, i) == crashed_at(w, i) by {
                assert(crashed_at(a, i) == crashed_at(w, i));
            }
            let b = told.world.see(Sighting::TornTailDiscarded).clear_marks(s.key, drop.to_set());
            let c = b.mend_disk(
                s.key,
                DiskView {
                    accepted: b.disks[s.key].accepted.remove_keys(drop.to_set()),
                    entry_health: b.disks[s.key].entry_health.remove_keys(drop.to_set()),
                    ..b.disks[s.key]
                },
            );
            assert forall|i: int| #[trigger] crashed_at(c, i) == crashed_at(w, i) by {
                assert(crashed_at(told.world, i) == crashed_at(w, i));
            }
            lemma_slots_crash_nothing(c, node, drop, CorruptionOutcome::DiscardedTail);
            assert(end == told.discards(rows));
            assert(h.world.corruptions.len() == w.corruptions.len());
            assert(told.world.corruptions.len() == w.corruptions.len());
            assert(end.world.corruptions.len() == w.corruptions.len());
            assert forall|i: int| #[trigger] crashed_at(end.world, i) == crashed_at(w, i) by {
                assert(crashed_at(c, i) == crashed_at(w, i));
            }
        }
    }
}

} // verus!
