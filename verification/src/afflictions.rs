//! What a targeted corruption does to the node it names, what a boot then reads of
//! a disk, and whom a scripted client asks next.
use crate::chunk_masks::{
    MAX_MASK_CHUNKS, chunk_at, chunk_masked, law_chunk_mask_rots_exactly_its_cells, pointed,
    rot_chunk_mask,
};
use crate::corpus::{Applied, AskReply, AskStep, aimed, asked_next, retargeted};
use crate::decay::{books_one, spares_others};
use crate::disk::{DiskView, RecordHealth, SlotHealth};
use crate::faults::StorageFaults;
use crate::flush::chunk_name;
use crate::masks::CORPUS_NODES;
use crate::ordered::{MapKey, ascending, lemma_ascending_lists};
use crate::records::{SealedSession, StorageRecord, WitnessStatus, chunks_of};
use crate::storage::{EvidenceView, StorageView};
use crate::world::{CorruptionKind, CorruptionOutcome, WorldView};
use vstd::prelude::*;

verus! {

/// A named record is corrupted only where it reads clean: it then reads faulty
/// with its identity intact, is marked, and goes on the books. Corrupting it again
/// changes nothing, and nothing else on any disk is touched.
pub proof fn law_named_record_is_corrupted_once(
    w: WorldView,
    key: u64,
    node: u64,
    slot: u64,
    other: u64,
)
    requires
        w.disks.contains_key(key),
        other != slot,
    ensures
        ({
            let d = w.disks[key];
            let after = w.corrupt_entry(key, node, slot);
            let clean = d.accepted.contains_key(slot) && (d.entry_health.contains_key(slot)
                ==> d.entry_health[slot] == SlotHealth::sound());
            &&& clean <==> w.entry_corruptible(key, slot)
            &&& clean ==> {
                &&& after.disks[key].slot_health(slot).entry == RecordHealth::Faulty
                &&& after.disks[key].slot_health(slot).id == WitnessStatus::Present
                &&& after.disks[key].slot_health(other) == d.slot_health(other)
                &&& after.disks[key].accepted == d.accepted
                &&& after.disks[key].snapshot_health == d.snapshot_health
                &&& after.marked(key, slot)
                &&& books_one(
                    w,
                    after,
                    node,
                    StorageRecord::Accepted(slot),
                    CorruptionKind::BitFlip,
                )
                &&& spares_others(w, after, key)
                &&& after.corrupt_entry(key, node, slot) == after
            }
            &&& !clean ==> after == w
        }),
{
    let after = w.corrupt_entry(key, node, slot);
    if w.entry_corruptible(key, slot) {
        assert(after.corruptions.drop_last() =~= w.corruptions);
        assert(after.disks.dom() =~= w.disks.dom());
    }
}

/// A node's live snapshot is corrupted wherever the node has a disk; its log, its
/// floor and its point are spared.
pub proof fn law_named_snapshot_is_corrupted(w: WorldView, key: u64, node: u64)
    ensures
        ({
            let after = w.corrupt_snapshot(key, node);
            if w.disks.contains_key(key) {
                &&& after.disks[key] == DiskView {
                    snapshot_health: RecordHealth::Faulty,
                    ..w.disks[key]
                }
                &&& books_one(w, after, node, StorageRecord::Snapshot, CorruptionKind::BitFlip)
                &&& spares_others(w, after, key)
                &&& after.marks == w.marks && after.parked == w.parked
            } else {
                after == w
            }
        }),
{
    let after = w.corrupt_snapshot(key, node);
    if w.disks.contains_key(key) {
        assert(after.corruptions.drop_last() =~= w.corruptions);
        assert(after.disks.dom() =~= w.disks.dom());
    }
}

/// A named chunk is corrupted only where the node's point has it and it reads
/// clean; every other chunk reads as before, and so does the rest of the disk.
pub proof fn law_named_chunk_is_corrupted_once(
    w: WorldView,
    key: u64,
    node: u64,
    chunk: u32,
    other: int,
)
    requires
        w.disks.contains_key(key),
        w.disks[key].snap_point is Some,
        other != chunk,
    ensures
        ({
            let d = w.disks[key];
            let after = w.corrupt_snap_chunk(key, node, chunk);
            let count = chunks_of(d.snap_point->0.state.blob.len(), w.chunk_bytes);
            let lands = chunk < count && d.chunk_clean(chunk as int);
            &&& lands <==> w.chunk_corruptible(key, chunk)
            &&& lands ==> {
                &&& !after.disks[key].chunk_clean(chunk as int)
                &&& books_one(
                    w,
                    after,
                    node,
                    StorageRecord::SnapChunk(d.snap_point->0.at, chunk),
                    CorruptionKind::BitFlip,
                )
            }
            &&& !lands ==> after.corruptions == w.corruptions
            &&& after.disks[key].chunk_clean(other) == d.chunk_clean(other)
            &&& after.disks[key] == DiskView {
                snap_chunk_health: after.disks[key].snap_chunk_health,
                ..d
            }
            &&& spares_others(w, after, key)
            &&& after.marks == w.marks && after.parked == w.parked
        }),
{
    let after = w.corrupt_snap_chunk(key, node, chunk);
    assert(after.disks.dom() =~= w.disks.dom());
    if w.chunk_corruptible(key, chunk) {
        assert(after.corruptions.drop_last() =~= w.corruptions);
    }
}

/// A budgeted corruption of a scalar, a snapshot or a held record parks its node,
/// so it is refused where the node may not be lost or does not hold the record.
pub proof fn law_budgeted_corruption_parks_its_node(
    w: WorldView,
    key: u64,
    node: u64,
    record: StorageRecord,
)
    requires
        w.disks.contains_key(key),
    ensures
        ({
            let d = w.disks[key];
            let after = w.corrupt(key, node, record);
            let held = match record {
                StorageRecord::Accepted(slot) => d.accepted.contains_key(slot),
                StorageRecord::Promise => true,
                StorageRecord::ChosenIndex => true,
                StorageRecord::Truncation => true,
                StorageRecord::Snapshot => true,
                _ => false,
            };
            if held && w.may_park(key) {
                &&& after.parked == w.parked.insert(key)
                &&& after.parked_ids == w.parked_ids.insert(node)
                &&& after.corruptions.len() == w.corruptions.len() + 1
                &&& after.corruptions.last().record == record && after.corruptions.last().node
                    == node && after.corruptions.last().outcome == CorruptionOutcome::Dormant
                &&& spares_others(w, after, key)
                &&& match record {
                    StorageRecord::Accepted(slot) => after.disks[key].slot_health(slot).entry
                        == RecordHealth::Faulty && after.marked(key, slot),
                    StorageRecord::Promise => after.disks[key].promise_health == (
                        RecordHealth::Faulty,
                        RecordHealth::Faulty,
                    ),
                    StorageRecord::ChosenIndex => after.disks[key].chosen_health
                        == RecordHealth::Faulty,
                    StorageRecord::Truncation => after.disks[key].truncation_health
                        == RecordHealth::Faulty,
                    _ => after.disks[key].snapshot_health == RecordHealth::Faulty,
                }
                &&& after.disks[key].accepted == d.accepted && after.disks[key].chain == d.chain
            } else {
                after == w
            }
        }),
{
    let after = w.corrupt(key, node, record);
    assert(after.disks.dom() =~= w.disks.dom());
}

/// A boot sees its disk as it is: the application state, the scalars and the floor
/// that are on it; the accepted records that read clean and no others; and for
/// every record, clean or not, its slot, its ballot and its health, in slot order.
pub proof fn law_boot_reads_the_disk(
    w: WorldView,
    key: u64,
    node: u64,
    faults: StorageFaults,
    slot: u64,
)
    requires
        w.valid(),
        w.disks.contains_key(key),
    ensures
        ({
            let d = w.disks[key];
            let s = StorageView::opened(w, key, node, faults);
            &&& s.application == d.chain
            &&& s.boot.hard_state == d.hard_state
            &&& s.boot.first_slot == d.first_slot
            &&& s.boot.accepted.contains_key(slot) <==> d.accepted.contains_key(slot)
                && d.slot_health(slot) == SlotHealth::sound()
            &&& s.boot.accepted.contains_key(slot) ==> s.boot.accepted[slot] == d.accepted[slot]
            &&& s.evidence.promise == d.promise_health
            &&& s.evidence.chosen == d.chosen_health
            &&& s.evidence.truncation == d.truncation_health
            &&& s.evidence.snapshot == d.snapshot_health
            &&& s.evidence.meta == d.meta_fault
            &&& s.evidence.read_eio == d.read_eio
            &&& d.snap_point is Some ==> s.evidence.snap_point == Some(d.snap_point->0.at)
                && s.evidence.snap_chunks == d.snap_chunk_health
            &&& d.snap_point is None ==> s.evidence.snap_point is None
            &&& d.accepted.contains_key(slot) <==> exists|i: int|
                0 <= i < s.evidence.records.len() && (#[trigger] s.evidence.records[i]).slot == slot
            &&& forall|i: int|
                0 <= i < s.evidence.records.len() ==> (#[trigger] s.evidence.records[i]).health
                    == d.slot_health(s.evidence.records[i].slot) && s.evidence.records[i].ballot
                    == d.accepted[s.evidence.records[i].slot].ballot
            &&& forall|i: int, j: int|
                0 <= i < j < s.evidence.records.len() ==> (#[trigger] s.evidence.records[i]).slot < (
                #[trigger] s.evidence.records[j]).slot
            &&& s.faulty_list.len() == 0 && s.faulty_chunks.len() == 0
            &&& s.key == key && s.node_id == node && s.faults == faults
        }),
{
    let d = w.disks[key];
    let s = StorageView::opened(w, key, node, faults);
    let slots = ascending(d.accepted.dom());
    lemma_ascending_lists(d.accepted.dom());
    assert forall|i: int, j: int| 0 <= i < j < s.evidence.records.len() implies (
    #[trigger] s.evidence.records[i]).slot < (#[trigger] s.evidence.records[j]).slot by {
        assert(slots[i].rank() < slots[j].rank());
    }
    if d.accepted.contains_key(slot) {
        assert(slots.contains(slot));
        let i = choose|i: int| 0 <= i < slots.len() && slots[i] == slot;
        assert(s.evidence.records[i].slot == slot);
    }
    if exists|i: int|
        0 <= i < s.evidence.records.len() && (#[trigger] s.evidence.records[i]).slot == slot {
        let i = choose|i: int|
            0 <= i < s.evidence.records.len() && (#[trigger] s.evidence.records[i]).slot == slot;
        assert(slots.contains(slots[i]));
    }
}

/// A disk that was never touched boots empty, with nothing to report.
pub proof fn law_untouched_disk_boots_empty(w: WorldView, key: u64, node: u64, faults: StorageFaults)
    requires
        !w.disks.contains_key(key),
    ensures
        StorageView::opened(w, key, node, faults).application == w.empty,
        StorageView::opened(w, key, node, faults).evidence == EvidenceView::none(),
        StorageView::opened(w, key, node, faults).evidence.records.len() == 0,
{
}

/// An answer that is done ends the asking. Otherwise the leader it names is asked
/// next, unless that one is down or not in the cluster; without a leader to ask,
/// and without an answer, the next node round the cluster is.
pub proof fn law_asking_follows_the_hint(
    target: usize,
    reply: Option<AskReply>,
    exclude: Option<usize>,
    nodes: usize,
)
    requires
        target < nodes,
    ensures
        ({
            let step = asked_next(target, reply, exclude, nodes);
            let round = if target + 1 < nodes {
                target + 1
            } else {
                0
            };
            let hinted = reply is Some && reply->0.leader is Some && reply->0.leader->0 < nodes
                && exclude != Some(reply->0.leader->0 as usize);
            &&& step == AskStep::Done <==> reply is Some && reply->0.done
            &&& step matches AskStep::Ask { target: next } ==> {
                &&& hinted ==> next == reply->0.leader->0
                &&& !hinted ==> next == round
            }
            &&& retargeted(target, None, exclude, nodes) == round
            &&& exclude != Some(target) ==> aimed(target, exclude, nodes) == target
            &&& exclude == Some(target) ==> aimed(target, exclude, nodes) == round
        }),
{
    if target + 1 < nodes {
        vstd::arithmetic::div_mod::lemma_small_mod((target + 1) as nat, nodes as nat);
    } else {
        vstd::arithmetic::div_mod::lemma_mod_self_0(nodes as int);
    }
}

/// A boot reads every sealed session with the slot it was sealed at, and no others.
pub proof fn law_boot_reads_the_sealed_sessions(
    w: WorldView,
    key: u64,
    node: u64,
    faults: StorageFaults,
    sealed: SealedSession,
)
    requires
        w.disks.contains_key(key),
        w.disks[key].sealed.dom().finite(),
    ensures
        StorageView::opened(w, key, node, faults).boot.sealed.contains(sealed)
            <==> w.disks[key].sealed.contains_key(sealed.session)
            && w.disks[key].sealed[sealed.session] == sealed.slot,
{
    let d = w.disks[key];
    let sessions = ascending(d.sealed.dom());
    lemma_ascending_lists(d.sealed.dom());
    let list = StorageView::opened(w, key, node, faults).boot.sealed;
    if list.contains(sealed) {
        let i = choose|i: int| 0 <= i < list.len() && list[i] == sealed;
        assert(sessions[i] == sealed.session);
        assert(sessions.contains(sealed.session));
    }
    if d.sealed.contains_key(sealed.session) && d.sealed[sealed.session] == sealed.slot {
        assert(sessions.contains(sealed.session));
        let i = choose|i: int| 0 <= i < sessions.len() && sessions[i] == sealed.session;
        assert(list[i] == sealed);
    }
}

/// A node counts as replicated exactly if it has applied the wanted state and reads
/// every one of the slots clean: rotting one of them undoes it, on that node and on
/// no other.
pub proof fn law_rot_undoes_replication(
    w: WorldView,
    key: u64,
    other: u64,
    node: u64,
    slot: u64,
    slots: u64,
    want: Applied,
)
    requires
        w.replicated_on(key, slots, want),
        slot < slots,
        other != key,
    ensures
        w.disks.contains_key(key),
        w.disks[key].chain.applied_count == want.count,
        w.disks[key].chain.chain_hash == want.chain_hash,
        w.disks[key].accepted.contains_key(slot),
        w.disks[key].slot_health(slot) == SlotHealth::sound(),
        ({
            let after = w.corrupt_entry(key, node, slot);
            &&& !after.replicated_on(key, slots, want)
            &&& after.replicated_on(key, slot, want)
            &&& after.replicated_on(other, slots, want) <==> w.replicated_on(other, slots, want)
        }),
{
    let after = w.corrupt_entry(key, node, slot);
    assert(w.disks[key].holds_clean(slot));
    assert(!after.disks[key].holds_clean(slot));
    assert forall|s: u64| s < slot implies #[trigger] after.disks[key].holds_clean(s) by {
        assert(w.disks[key].holds_clean(s));
    }
    assert(w.disks.contains_key(other) ==> after.disks[other] == w.disks[other]);
}

/// A node has settled on a point exactly at its floor, with the wanted state applied,
/// that very point retained and no chunk of it rotten: rotting a chunk undoes it, and
/// so does looking for any other floor or point.
pub proof fn law_rot_undoes_settling(
    w: WorldView,
    key: u64,
    node: u64,
    chunk: u32,
    floor: u64,
    point: u64,
    want: Applied,
    other: u64,
)
    requires
        w.settled_on(key, floor, point, want),
        w.chunk_in_point(key, chunk),
        w.disks[key].snap_chunk_health.len() <= u32::MAX,
    ensures
        w.disks[key].first_slot == floor,
        w.disks[key].snap_point is Some && w.disks[key].snap_point->0.at == point,
        forall|i: int|
            0 <= i < w.disks[key].snap_chunk_health.len()
                ==> #[trigger] w.disks[key].snap_chunk_health[i] == RecordHealth::Clean,
        other != floor ==> !w.settled_on(key, other, point, want),
        other != point ==> !w.settled_on(key, floor, other, want),
        !w.corrupt_snap_chunk(key, node, chunk).settled_on(key, floor, point, want),
{
    let d = w.disks[key];
    assert forall|i: int| 0 <= i < d.snap_chunk_health.len() implies #[trigger] d.snap_chunk_health[i]
        == RecordHealth::Clean by {
        let name = chunk_name(i);
        assert(!d.rotted_chunk(name));
    }
    law_named_chunk_is_corrupted_once(w, key, node, chunk, chunk + 1);
    let after = w.corrupt_snap_chunk(key, node, chunk);
    assert(!after.disks[key].chunk_clean(chunk as int));
    assert(after.disks[key].snap_chunk_health[chunk as int] != RecordHealth::Clean);
    assert(chunk == chunk_name(chunk as int));
    assert(after.disks[key].rotted_chunk(chunk));
}

/// A node has healed exactly if nothing of its point is rotten but what no node holds
/// clean; with nothing lost, it has healed exactly if its whole point reads clean.
pub proof fn law_healing_leaves_only_the_lost(w: WorldView, key: u64, lost: Set<u32>, chunk: u32)
    requires
        w.disks.contains_key(key),
        w.disks[key].snap_chunk_health.len() <= u32::MAX,
    ensures
        w.healed_on(key, lost) && chunk < w.disks[key].snap_chunk_health.len()
            && w.disks[key].snap_chunk_health[chunk as int] != RecordHealth::Clean
            ==> lost.contains(chunk),
        w.healed_on(key, Set::empty()) <==> w.disks[key].chunks_clean(),
        w.healed_on(key, Set::empty()) ==> w.healed_on(key, lost),
{
    let d = w.disks[key];
    if chunk < d.snap_chunk_health.len() && d.snap_chunk_health[chunk as int]
        != RecordHealth::Clean {
        assert(chunk == chunk_name(chunk as int));
        assert(d.rotted_chunk(chunk));
    }
    if w.healed_on(key, Set::empty()) {
        assert forall|i: int| 0 <= i < d.snap_chunk_health.len() implies #[trigger] d.snap_chunk_health[i]
            == RecordHealth::Clean by {
            if d.snap_chunk_health[i] != RecordHealth::Clean {
                assert(d.rotted_chunk(chunk_name(i)));
            }
        }
    }
}

/// What no node holds clean stays faulty: right after a chunk mask is injected every
/// node's masked chunks of the lost ones read faulty, and a node on which one of them
/// reads clean again has made it up.
pub proof fn law_lost_chunks_read_faulty(
    w: WorldView,
    keys: Seq<u64>,
    mask: u32,
    chunks: int,
    node: int,
    lost: Set<u32>,
    chunk: u32,
)
    requires
        pointed(w, keys, chunks),
        0 <= chunks <= MAX_MASK_CHUNKS,
        forall|i: int, c: int|
            0 <= i < CORPUS_NODES && 0 <= c < chunks ==> #[trigger] chunk_at(w, keys, i, c),
        0 <= node < CORPUS_NODES,
        forall|c: u32| #[trigger] lost.contains(c) ==> c < chunks,
        lost.contains(chunk),
        chunk_masked(mask, chunks, node, chunk as int),
    ensures
        ({
            let after = rot_chunk_mask(w, keys, mask, chunks, false);
            &&& after.disks[keys[node]].rotted_chunk(chunk)
            &&& forall|v: WorldView| #[trigger]
                v.still_faulty_on(keys[node], node, mask, chunks, lost)
                    ==> v.disks[keys[node]].rotted_chunk(chunk)
        }),
{
    law_chunk_mask_rots_exactly_its_cells(w, keys, mask, chunks, false, node, chunk as int);
    let after = rot_chunk_mask(w, keys, mask, chunks, false);
    let d = after.disks[keys[node]];
    assert(!chunk_at(after, keys, node, chunk as int));
    assert(d.snap_chunk_health[chunk as int] != RecordHealth::Clean);
    assert(chunk == chunk_name(chunk as int));
}

} // verus!
