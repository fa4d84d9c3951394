//! What the fault budget guarantees: no injection it permits ever costs the
//! cluster the quorum it recovers from.
use crate::disk::{DiskView, RecordHealth, SlotHealth};
use crate::flush::{flush_disk, flush_world};
use crate::ordered::{ascending, lemma_ascending_lists};
use crate::records::{MustSync, SlotCase, StorageRecord, WitnessStatus};
use crate::rot::{RotCoins, RotDraws, picked};
use crate::stage::StageView;
use crate::storage::StorageView;
use crate::world::{CorruptionKind, InjectedFault, WorldView, less};
use crate::writes::{SyncCoins, WriteCoins, WriteView, permitted_prefix};
use vstd::prelude::*;
use vstd::set_lib::{lemma_len_subset, lemma_set_subset_finite};

verus! {

proof fn lemma_grow(small: Set<u64>, big: Set<u64>, key: u64)
    requires
        small.finite(),
        big.subset_of(small.insert(key)),
    ensures
        big.finite(),
        big.len() <= small.len() + 1,
        small.contains(key) ==> big.len() <= small.len(),
{
    lemma_len_subset(big, small.insert(key));
    if small.contains(key) {
        assert(small.insert(key) =~= small);
    }
}

proof fn lemma_sets_finite(w: WorldView, slot: u64)
    requires
        w.valid(),
    ensures
        w.marked_at(slot).finite(),
        w.truncated_past(slot).finite(),
        w.unclean(slot).finite(),
        w.lost_at(slot).finite(),
        w.lost_at(slot).subset_of(w.unclean(slot)),
        w.lost_at(slot).len() <= w.unclean(slot).len(),
        forall|key: u64| w.marked_at(slot).contains(key) <==> #[trigger] w.marked(key, slot),
{
    lemma_set_subset_finite(w.marks.dom(), w.marked_at(slot));
    lemma_set_subset_finite(w.disks.dom(), w.truncated_past(slot));
    lemma_len_subset(w.lost_at(slot), w.unclean(slot));
}

/// Marking a record on one node, when the record keeps a clean quorum without
/// that node's copy, keeps a clean quorum after the mark.
proof fn lemma_mark(w: WorldView, key: u64, slots: Set<u64>, slot: u64)
    requires
        w.valid(),
        slots.contains(slot) ==> w.copies_without(key, slot) >= w.quorum(),
    ensures
        w.mark(key, slots).valid(),
        slots.contains(slot) ==> w.mark(key, slots).clean_copies(slot) >= w.quorum(),
        slots.contains(slot) ==> less(w.cluster_size, w.mark(key, slots).lost_at(slot).len())
            >= w.quorum(),
        !slots.contains(slot) ==> w.mark(key, slots).lost_at(slot) == w.lost_at(slot),
        !slots.contains(slot) ==> w.mark(key, slots).marked_anywhere(slot) == w.marked_anywhere(
            slot,
        ),
{
    let after = w.mark(key, slots);
    lemma_sets_finite(w, slot);
    lemma_sets_finite(after, slot);
    assert forall|k: u64| #[trigger] after.marked(k, slot) == (w.marked(k, slot) || (k == key
        && slots.contains(slot))) by {}
    if slots.contains(slot) {
        assert(after.unclean(slot).subset_of(w.unclean(slot).insert(key))) by {
            assert forall|k: u64| after.unclean(slot).contains(k) implies w.unclean(slot).insert(
                key,
            ).contains(k) by {
                assert(after.marked_at(slot).contains(k) == after.marked(k, slot));
                assert(w.marked_at(slot).contains(k) == w.marked(k, slot));
            }
        }
        lemma_grow(w.unclean(slot), after.unclean(slot), key);
        if w.marked(key, slot) {
            assert(w.marked_at(slot).contains(key));
            assert(w.unclean(slot).contains(key));
        }
    } else {
        assert(after.marked_at(slot) =~= w.marked_at(slot)) by {
            assert forall|k: u64| after.marked_at(slot).contains(k) == w.marked_at(slot).contains(
                k,
            ) by {
                assert(after.marked_at(slot).contains(k) == after.marked(k, slot));
                assert(w.marked_at(slot).contains(k) == w.marked(k, slot));
            }
        }
        if after.marked_anywhere(slot) {
            let k = choose|k: u64| #[trigger] after.marked(k, slot);
            assert(w.marked(k, slot));
        }
        if w.marked_anywhere(slot) {
            let k = choose|k: u64| #[trigger] w.marked(k, slot);
            assert(after.marked(k, slot));
        }
    }
}

/// The per-record budget: after a permitted injection every record it touched
/// still has a clean quorum of live copies, and a node that holds accepted
/// records still holds one that no fault has touched.
pub proof fn law_permitted_fault_keeps_clean_quorum(
    w: WorldView,
    key: u64,
    fault: InjectedFault,
    slots: Seq<u64>,
)
    requires
        w.valid(),
        w.permits(key, slots),
    ensures
        forall|i: int|
            0 <= i < slots.len() ==> w.permit_and_record(key, fault, slots).clean_copies(
                #[trigger] slots[i],
            ) >= w.quorum(),
        w.disks.contains_key(key) && w.disks[key].accepted.len() > 0 ==> exists|slot: u64|
            #![trigger w.disks[key].accepted.contains_key(slot)]
            w.disks[key].accepted.contains_key(slot) && !w.permit_and_record(
                key,
                fault,
                slots,
            ).marked(key, slot),
{
    let after = w.permit_and_record(key, fault, slots);
    assert forall|i: int| 0 <= i < slots.len() implies after.clean_copies(#[trigger] slots[i])
        >= w.quorum() by {
        let slot = slots[i];
        assert(slots.to_set().contains(slot));
        if fault.persisted {
            assert(after.unclean(slot) =~= w.unclean(slot)) by {
                assert(after.marked_at(slot) =~= w.marked_at(slot));
                assert(after.truncated_past(slot) =~= w.truncated_past(slot));
            }
        } else {
            lemma_mark(w, key, slots.to_set(), slot);
            let marked = w.mark(key, slots.to_set());
            assert(after.marked_at(slot) =~= marked.marked_at(slot));
            assert(after.truncated_past(slot) =~= marked.truncated_past(slot));
        }
    }
    if w.disks.contains_key(key) && w.disks[key].accepted.len() > 0 {
        let accepted = w.disks[key].accepted;
        if accepted.dom().finite() {
            assert(accepted.dom().len() > 0);
            let any = accepted.dom().choose();
            assert(accepted.dom().contains(any));
            assert(accepted.contains_key(any));
        } else {
            if forall|slot: u64| !#[trigger] accepted.contains_key(slot) {
                assert(accepted.dom() =~= Set::<u64>::empty());
                assert(false);
            }
        }
        assert(!w.blankets(key, slots));
        let slot = choose|slot: u64| #[trigger]
            accepted.contains_key(slot) && !(slots.contains(slot) || w.marked(key, slot));
        assert(accepted.contains_key(slot) && !slots.contains(slot) && !w.marked(key, slot));
        assert(!slots.to_set().contains(slot));
        assert(!after.marked(key, slot));
    }
}

/// A permitted write-path fault keeps the run winnable.
pub proof fn law_permitted_fault_keeps_run_winnable(
    w: WorldView,
    key: u64,
    fault: InjectedFault,
    slots: Seq<u64>,
)
    requires
        w.valid(),
        w.winnable(),
    ensures
        w.permit_and_record(key, fault, slots).valid(),
        w.permit_and_record(key, fault, slots).winnable(),
{
    let after = w.permit_and_record(key, fault, slots);
    if w.permits(key, slots) && !fault.persisted {
        assert forall|slot: u64| slots.to_set().contains(slot) implies w.copies_without(key, slot)
            >= w.quorum() by {
            let i = slots.index_of(slot);
            assert(slots[i] == slot);
        }
        lemma_marks_keep_winnable(w, key, slots.to_set());
        lemma_winnable_frame(w.mark(key, slots.to_set()), after);
    } else {
        lemma_winnable_frame(w, after);
    }
}

/// Winnability is a fact about the marks, the parked nodes and the cluster
/// size alone.
pub proof fn lemma_winnable_frame(a: WorldView, b: WorldView)
    requires
        a.marks == b.marks,
        a.parked == b.parked,
        a.cluster_size == b.cluster_size,
    ensures
        a.winnable() == b.winnable(),
        a.clean_quorum_everywhere() == b.clean_quorum_everywhere(),
{
    assert forall|slot: u64| #[trigger] a.marked_anywhere(slot) == b.marked_anywhere(slot) by {
        if a.marked_anywhere(slot) {
            let k = choose|k: u64| #[trigger] a.marked(k, slot);
            assert(b.marked(k, slot));
        }
        if b.marked_anywhere(slot) {
            let k = choose|k: u64| #[trigger] b.marked(k, slot);
            assert(a.marked(k, slot));
        }
    }
    assert forall|slot: u64| #[trigger] a.lost_at(slot) == b.lost_at(slot) by {
        assert(a.marked_at(slot) =~= b.marked_at(slot));
    }
    if a.clean_quorum_everywhere() {
        assert forall|slot: u64| #[trigger] b.marked_anywhere(slot) implies less(
            b.cluster_size,
            b.lost_at(slot).len(),
        ) >= b.quorum() by {
            assert(a.marked_anywhere(slot));
            assert(a.lost_at(slot) == b.lost_at(slot));
        }
    }
    if b.clean_quorum_everywhere() {
        assert forall|slot: u64| #[trigger] a.marked_anywhere(slot) implies less(
            a.cluster_size,
            a.lost_at(slot).len(),
        ) >= a.quorum() by {
            assert(b.marked_anywhere(slot));
            assert(a.lost_at(slot) == b.lost_at(slot));
        }
    }
}

/// Marking records that each keep a clean quorum elsewhere keeps the run
/// winnable.
pub proof fn lemma_marks_keep_winnable(w: WorldView, key: u64, slots: Set<u64>)
    requires
        w.valid(),
        w.winnable(),
        forall|slot: u64| #[trigger]
            slots.contains(slot) ==> w.copies_without(key, slot) >= w.quorum(),
    ensures
        w.mark(key, slots).valid(),
        w.mark(key, slots).winnable(),
{
    let after = w.mark(key, slots);
    assert forall|slot: u64| #[trigger] after.marked_anywhere(slot) implies less(
        after.cluster_size,
        after.lost_at(slot).len(),
    ) >= after.quorum() by {
        lemma_mark(w, key, slots, slot);
        if !slots.contains(slot) {
            assert(w.marked_anywhere(slot));
        }
    }
}

/// A recoverable corruption inside the per-record budget keeps the run
/// winnable.
pub proof fn law_budgeted_rot_keeps_run_winnable(w: WorldView, key: u64, slot: u64)
    requires
        w.valid(),
        w.winnable(),
        !w.unbudgeted,
        w.may_corrupt_record(key, slot),
    ensures
        w.mark(key, set![slot]).valid(),
        w.mark(key, set![slot]).winnable(),
{
    lemma_marks_keep_winnable(w, key, set![slot]);
}

/// Parking a node the dead-node budget allows keeps the run winnable: a quorum
/// of nodes stays live, and every marked record keeps its clean quorum.
pub proof fn law_budgeted_park_keeps_run_winnable(w: WorldView, key: u64, node: u64)
    requires
        w.valid(),
        w.winnable(),
        w.may_park(key),
    ensures
        w.park(key, node).valid(),
        w.park(key, node).winnable(),
{
    let after = w.park(key, node);
    if w.parked.contains(key) {
        assert(after.parked =~= w.parked);
        lemma_winnable_frame(w, after);
    } else {
        assert forall|slot: u64| #[trigger] after.marked_anywhere(slot) implies less(
            after.cluster_size,
            after.lost_at(slot).len(),
        ) >= after.quorum() by {
            let k = choose|k: u64| #[trigger] after.marked(k, slot);
            assert(w.marked(k, slot));
            assert(w.marked_anywhere(slot));
            assert(after.marked_at(slot) =~= w.marked_at(slot));
            assert(after.lost_at(slot) =~= w.lost_at(slot).insert(key));
        }
    }
}

/// A wipe, which the dead-node budget may refuse, keeps the run winnable.
pub proof fn law_wipe_keeps_run_winnable(w: WorldView, key: u64, node: u64)
    requires
        w.valid(),
        w.winnable(),
    ensures
        w.wipe(key, node).valid(),
        w.wipe(key, node).winnable(),
{
    if w.may_park(key) {
        law_budgeted_park_keeps_run_winnable(w, key, node);
        lemma_winnable_frame(w.park(key, node), w.wipe(key, node));
    }
}

/// A winnable run with a nonempty cluster keeps a quorum of live nodes.
pub proof fn law_winnable_run_has_live_quorum(w: WorldView)
    requires
        w.winnable(),
        w.cluster_size > 0,
    ensures
        w.cluster_size - w.parked.len() >= w.quorum(),
{
}

/// Clearing marks (a clean re-write, a discarded tail) keeps the run winnable.
pub proof fn law_rewrites_keep_run_winnable(w: WorldView, key: u64, slots: Set<u64>)
    requires
        w.valid(),
        w.winnable(),
    ensures
        w.clear_marks(key, slots).valid(),
        w.clear_marks(key, slots).winnable(),
{
    lemma_fewer_marks(w, w.clear_marks(key, slots));
}

/// Retiring the marks below a raised floor keeps the run winnable.
pub proof fn law_truncation_keeps_run_winnable(w: WorldView, key: u64, floor: u64)
    requires
        w.valid(),
        w.winnable(),
    ensures
        w.retire_marks(key, floor).valid(),
        w.retire_marks(key, floor).winnable(),
{
    lemma_fewer_marks(w, w.retire_marks(key, floor));
}

/// Losing marks never costs a run its winnability.
pub proof fn lemma_fewer_marks(w: WorldView, after: WorldView)
    requires
        w.valid(),
        w.winnable(),
        after.marks.dom().subset_of(w.marks.dom()),
        after.parked == w.parked,
        after.cluster_size == w.cluster_size,
        forall|key: u64, slot: u64| #[trigger] after.marked(key, slot) ==> w.marked(key, slot),
    ensures
        after.marks.dom().finite(),
        after.winnable(),
{
    lemma_set_subset_finite(w.marks.dom(), after.marks.dom());
    assert forall|slot: u64| #[trigger] after.marked_anywhere(slot) implies less(
        after.cluster_size,
        after.lost_at(slot).len(),
    ) >= after.quorum() by {
        let k = choose|k: u64| #[trigger] after.marked(k, slot);
        assert(w.marked(k, slot));
        assert(w.marked_anywhere(slot));
        lemma_sets_finite(w, slot);
        assert forall|k: u64| after.lost_at(slot).contains(k) implies w.lost_at(slot).contains(
            k,
        ) by {
            if after.marked_at(slot).contains(k) {
                assert(after.marked(k, slot));
                assert(w.marked_at(slot).contains(k));
            }
        }
        lemma_len_subset(after.lost_at(slot), w.lost_at(slot));
    }
}

/// A targeted corruption, which parks its node, keeps the run winnable.
pub proof fn law_targeted_corruption_keeps_run_winnable(
    w: WorldView,
    key: u64,
    node: u64,
    record: StorageRecord,
)
    requires
        w.valid(),
        w.winnable(),
    ensures
        w.corrupt(key, node, record).valid(),
        w.corrupt(key, node, record).winnable(),
{
    if w.may_corrupt(key, record) {
        let after = w.corrupt(key, node, record);
        match record {
            StorageRecord::Accepted(slot) => {
                lemma_mark_and_park_keep_winnable(w, key, node, set![slot]);
                lemma_winnable_frame(w.mark(key, set![slot]).park(key, node), after);
            },
            _ => {
                law_budgeted_park_keeps_run_winnable(w, key, node);
                lemma_winnable_frame(w.park(key, node), after);
            },
        }
    }
}

/// Marking records of a node and parking that node, when each of them keeps a
/// clean quorum without it (or it is parked already) and the dead-node budget
/// allows it, keeps the run winnable.
pub proof fn lemma_mark_and_park_keep_winnable(
    w: WorldView,
    key: u64,
    node: u64,
    slots: Set<u64>,
)
    requires
        w.valid(),
        w.winnable(),
        w.may_park(key),
        forall|slot: u64| #[trigger]
            slots.contains(slot) ==> w.parked.contains(key) || w.copies_without(key, slot)
                >= w.quorum(),
    ensures
        w.mark(key, slots).park(key, node).valid(),
        w.mark(key, slots).park(key, node).winnable(),
{
    let parked = w.park(key, node);
    law_budgeted_park_keeps_run_winnable(w, key, node);
    let after = w.mark(key, slots).park(key, node);
    assert forall|slot: u64| #[trigger] after.marked_anywhere(slot) implies less(
        after.cluster_size,
        after.lost_at(slot).len(),
    ) >= after.quorum() by {
        lemma_sets_finite(w, slot);
        lemma_sets_finite(parked, slot);
        assert forall|k: u64| after.lost_at(slot).contains(k) implies parked.lost_at(slot).contains(
            k,
        ) by {
            if after.marked_at(slot).contains(k) {
                assert(after.marked(k, slot));
                if k != key {
                    assert(w.marked(k, slot));
                    assert(parked.marked(k, slot));
                    assert(parked.marked_at(slot).contains(k));
                }
            }
        }
        lemma_len_subset(after.lost_at(slot), parked.lost_at(slot));
        if w.marked_anywhere(slot) {
            let k = choose|k: u64| #[trigger] w.marked(k, slot);
            assert(parked.marked(k, slot));
            assert(parked.marked_anywhere(slot));
        } else {
            assert forall|k: u64| parked.lost_at(slot).contains(k) implies parked.parked.contains(
                k,
            ) by {
                if parked.marked_at(slot).contains(k) {
                    assert(parked.marked(k, slot));
                    assert(w.marked(k, slot));
                }
            }
            lemma_len_subset(parked.lost_at(slot), parked.parked);
        }
    }
}

/// Flushing a stage keeps the run winnable.
pub proof fn law_flush_keeps_run_winnable(w: WorldView, key: u64, node: u64, st: StageView)
    requires
        w.valid(),
        w.winnable(),
        st.accepted.dom().finite(),
    ensures
        flush_world(w, key, node, st).valid(),
        flush_world(w, key, node, st).winnable(),
{
    let before = w.disk_or_fresh(key);
    let after = flush_disk(before, st, w.chunk_bytes);
    let cleared = w.clear_marks(key, st.accepted.dom());
    law_rewrites_keep_run_winnable(w, key, st.accepted.dom());
    let written = cleared.with_disk(key, after);
    lemma_winnable_frame(cleared, written);
    assert(after.accepted.dom().finite()) by {
        let all = before.accepted.dom().union(st.accepted.dom());
        assert(all.finite());
        assert(after.accepted.dom().subset_of(all));
        lemma_set_subset_finite(all, after.accepted.dom());
    }
    assert(written.valid());
    law_truncation_keeps_run_winnable(written, key, after.first_slot);
    let retired = written.retire_marks(key, after.first_slot);
    lemma_winnable_frame(retired, flush_world(w, key, node, st));
}

/// A write, whatever its fault site does, keeps the run winnable.
pub proof fn law_write_keeps_run_winnable(
    s: StorageView,
    w: WorldView,
    now_ns: u64,
    write: WriteView,
    coins: WriteCoins,
)
    requires
        w.valid(),
        w.winnable(),
        s.stage.accepted.dom().finite(),
    ensures
        s.write_step(w, now_ns, write, coins).world.valid(),
        s.write_step(w, now_ns, write, coins).world.winnable(),
{
    let record = write.record();
    let slots = crate::writes::accepted_slots_of(record);
    let fault = InjectedFault {
        node: s.node_id,
        record,
        kind: crate::world::InjectedFaultKind::WriteEio,
        persisted: coins.persisted,
    };
    law_permitted_fault_keeps_run_winnable(w, s.key, fault, slots);
    let hit = w.permit_and_record(s.key, fault, slots);
    assert(s.staged(write).stage.accepted.dom().finite());
    law_flush_keeps_run_winnable(hit, s.key, s.node_id, s.staged(write).stage);
}

proof fn lemma_permitted_prefix(w: WorldView, key: u64, slots: Seq<u64>)
    ensures
        0 <= permitted_prefix(w, key, slots) <= slots.len(),
        forall|i: int|
            0 <= i < permitted_prefix(w, key, slots) ==> w.copies_without(key, #[trigger] slots[i])
                >= w.quorum(),
    decreases slots.len(),
{
    if slots.len() > 0 {
        let front = slots.drop_last();
        lemma_permitted_prefix(w, key, front);
        assert forall|i: int| 0 <= i < permitted_prefix(w, key, slots) implies w.copies_without(
            key,
            #[trigger] slots[i],
        ) >= w.quorum() by {
            if i < permitted_prefix(w, key, front) {
                assert(front[i] == slots[i]);
            }
        }
    }
}

/// A torn batch keeps the run winnable.
pub proof fn law_torn_batch_keeps_run_winnable(
    s: StorageView,
    w: WorldView,
    draw: u64,
    entry_faulty: bool,
)
    requires
        w.valid(),
        w.winnable(),
        s.stage.accepted.dom().finite(),
    ensures
        s.torn(w, draw, entry_faulty).valid(),
        s.torn(w, draw, entry_faulty).winnable(),
{
    let torn = s.torn_slots(w, draw);
    let after = s.torn(w, draw, entry_faulty);
    if torn.len() > 0 {
        let fresh = ascending(s.fresh_slots(w));
        let count = 1 + draw as int % fresh.len() as int;
        assert(0 < count <= fresh.len());
        let cut = fresh.take(count);
        lemma_permitted_prefix(w, s.key, cut);
        assert forall|slot: u64| #[trigger] torn.to_set().contains(slot) implies w.copies_without(
            s.key,
            slot,
        ) >= w.quorum() by {
            let i = torn.index_of(slot);
            assert(cut[i] == torn[i]);
        }
        lemma_marks_keep_winnable(w, s.key, torn.to_set());
        lemma_winnable_frame(w.mark(s.key, torn.to_set()), after);
        let disk = w.disk_or_fresh(s.key);
        let landed = after.disks[s.key].accepted.dom();
        let all = disk.accepted.dom().union(s.stage.accepted.dom());
        assert(landed.subset_of(all));
        lemma_set_subset_finite(all, landed);
        assert(after.marks.dom() =~= w.marks.dom().insert(s.key));
        assert(after.valid());
    }
}

/// A sync, whatever its fault sites do, keeps the run winnable.
pub proof fn law_sync_keeps_run_winnable(
    s: StorageView,
    w: WorldView,
    now_ns: u64,
    must_sync: MustSync,
    coins: SyncCoins,
    draw: u64,
)
    requires
        w.valid(),
        w.winnable(),
        s.stage.accepted.dom().finite(),
    ensures
        s.sync_step(w, now_ns, must_sync, coins, draw).world.valid(),
        s.sync_step(w, now_ns, must_sync, coins, draw).world.winnable(),
{
    let slots = ascending(s.stage.accepted.dom());
    let forced = s.faults.live(now_ns) && s.tearable(w) && coins.force_torn;
    let fault = InjectedFault {
        node: s.node_id,
        record: StorageRecord::Batch,
        kind: crate::world::InjectedFaultKind::FsyncFailed,
        persisted: !forced && coins.persisted,
    };
    law_permitted_fault_keeps_run_winnable(w, s.key, fault, slots);
    let hit = w.permit_and_record(s.key, fault, slots);
    law_flush_keeps_run_winnable(w, s.key, s.node_id, s.stage);
    law_flush_keeps_run_winnable(hit, s.key, s.node_id, s.stage);
    law_torn_batch_keeps_run_winnable(s, hit, draw, coins.torn_entry_faulty);
}

/// What a rotted record leaves of the budget's inputs.
proof fn lemma_rot_entry(
    w: WorldView,
    key: u64,
    node: u64,
    slot: u64,
    health: SlotHealth,
    kind: CorruptionKind,
    block: bool,
)
    requires
        w.valid(),
    ensures
        ({
            let after = w.rot_entry(key, node, slot, health, kind, block);
            &&& after.valid()
            &&& after.marks == w.mark(key, set![slot]).marks
            &&& after.parked == w.parked
            &&& after.cluster_size == w.cluster_size
            &&& after.unbudgeted == w.unbudgeted
        }),
{
    let after = w.rot_entry(key, node, slot, health, kind, block);
    assert(after.disks.dom() =~= w.disks.dom());
    assert forall|k: u64| #[trigger] after.disks.contains_key(
        k,
    ) implies after.disks[k].accepted.dom().finite() by {
        assert(w.disks.contains_key(k));
    }
}

proof fn lemma_rot_block(
    w: WorldView,
    key: u64,
    node: u64,
    slots: Seq<u64>,
    primary: u64,
    id_faulty: bool,
    block: bool,
)
    requires
        w.valid(),
        slots.len() > 0,
    ensures
        ({
            let after = w.rot_block(key, node, slots, primary, id_faulty, block);
            &&& after.valid()
            &&& after.marks == w.mark(key, slots.to_set()).marks
            &&& after.parked == w.parked
            &&& after.cluster_size == w.cluster_size
            &&& after.unbudgeted == w.unbudgeted
        }),
    decreases slots.len(),
{
    let front = slots.drop_last();
    let last = slots.last();
    let before = w.rot_block(key, node, front, primary, id_faulty, block);
    let health = SlotHealth {
        entry: RecordHealth::Faulty,
        id: if last == primary && id_faulty {
            WitnessStatus::Faulty
        } else {
            WitnessStatus::Present
        },
    };
    if front.len() > 0 {
        lemma_rot_block(w, key, node, front, primary, id_faulty, block);
    } else {
        assert(before == w);
    }
    lemma_rot_entry(before, key, node, last, health, CorruptionKind::BitFlip, block);
    let after = w.rot_block(key, node, slots, primary, id_faulty, block);
    assert forall|s: u64| slots.contains(s) <==> front.contains(s) || s == last by {
        if slots.contains(s) {
            let i = slots.index_of(s);
            if i < front.len() {
                assert(front[i] == s);
            }
        }
        if front.contains(s) {
            let i = front.index_of(s);
            assert(slots[i] == s);
        }
        if s == last {
            assert(slots[slots.len() - 1] == s);
        }
    }
    assert(before.marks_of(key).union(set![last]) =~= w.marks_of(key).union(slots.to_set()));
    assert(after.marks =~= w.mark(key, slots.to_set()).marks);
}

/// The records a budgeted rot may take each keep a clean quorum without it.
proof fn lemma_rot_targets(w: WorldView, key: u64)
    requires
        w.valid(),
        !w.unbudgeted,
    ensures
        forall|i: int|
            0 <= i < w.rot_targets(key).len() ==> w.copies_without(
                key,
                #[trigger] w.rot_targets(key)[i],
            ) >= w.quorum(),
{
    if w.disks.contains_key(key) {
        let clean = w.disks[key].clean_slots();
        let pred = |slot: u64| w.may_corrupt_record(key, slot);
        lemma_set_subset_finite(w.disks[key].accepted.dom(), clean);
        lemma_set_subset_finite(clean, clean.filter(pred));
        lemma_ascending_lists(clean.filter(pred));
        let targets = w.rot_targets(key);
        assert forall|i: int| 0 <= i < targets.len() implies w.copies_without(
            key,
            #[trigger] targets[i],
        ) >= w.quorum() by {
            assert(targets.contains(targets[i]));
            assert(clean.filter(pred).contains(targets[i]));
        }
    }
}

proof fn lemma_bit_flips_keep_winnable(
    w: WorldView,
    key: u64,
    node: u64,
    coins: RotCoins,
    draws: RotDraws,
)
    requires
        w.valid(),
        w.winnable(),
        !w.unbudgeted,
    ensures
        w.bit_flips(key, node, coins, draws).valid(),
        w.bit_flips(key, node, coins, draws).winnable(),
        !w.bit_flips(key, node, coins, draws).unbudgeted,
{
    let targets = w.rot_targets(key);
    if coins.entry && targets.len() > 0 {
        lemma_rot_targets(w, key);
        let primary = picked(targets, coins.entry_last, draws.entry_pick);
        let id_faulty = coins.entry_id && w.may_park(key);
        let members = if coins.entry_block {
            w.block_members(key, primary, draws.entry_width)
        } else {
            seq![primary]
        };
        assert forall|i: int| 0 <= i < members.len() implies w.copies_without(
            key,
            #[trigger] members[i],
        ) >= w.quorum() by {
            if coins.entry_block {
                let pred = |slot: u64| slot + draws.entry_width > primary && slot <= primary;
                lemma_filtered_member(targets, pred, i);
                let j = choose|j: int|
                    0 <= j < targets.len() && #[trigger] targets[j] == targets.filter(pred)[i];
                assert(targets[j] == members[i]);
            } else if coins.entry_last {
                assert(targets[targets.len() - 1] == members[i]);
            } else {
                let j = draws.entry_pick as int % targets.len() as int;
                assert(targets[j] == members[i]);
            }
        }
        let block = members.len() > 1;
        let rotted = w.rot_block(key, node, members, primary, id_faulty, block);
        if members.len() > 0 {
            lemma_rot_block(w, key, node, members, primary, id_faulty, block);
            assert forall|slot: u64| #[trigger]
                members.to_set().contains(slot) implies w.copies_without(key, slot)
                >= w.quorum() by {
                let i = members.index_of(slot);
                assert(members[i] == slot);
            }
            lemma_marks_keep_winnable(w, key, members.to_set());
            lemma_winnable_frame(w.mark(key, members.to_set()), rotted);
            if id_faulty {
                lemma_mark_and_park_keep_winnable(w, key, node, members.to_set());
                lemma_winnable_frame(
                    w.mark(key, members.to_set()).park(key, node),
                    rotted.park(key, node),
                );
            }
        } else {
            assert(rotted == w);
            if id_faulty {
                law_budgeted_park_keeps_run_winnable(w, key, node);
            }
        }
    }
}

proof fn lemma_filtered_member(list: Seq<u64>, pred: spec_fn(u64) -> bool, i: int)
    requires
        0 <= i < list.filter(pred).len(),
    ensures
        exists|j: int| 0 <= j < list.len() && #[trigger] list[j] == list.filter(pred)[i],
    decreases list.len(),
{
    reveal(Seq::filter);
    let front = list.drop_last();
    if i < front.filter(pred).len() {
        lemma_filtered_member(front, pred, i);
        let j = choose|j: int| 0 <= j < front.len() && #[trigger] front[j] == front.filter(pred)[i];
        assert(list[j] == list.filter(pred)[i]);
    } else {
        assert(list[list.len() - 1] == list.filter(pred)[i]);
    }
}

proof fn lemma_lost_bytes_keep_winnable(
    w: WorldView,
    key: u64,
    node: u64,
    fires: bool,
    last: bool,
    draw: u64,
    health: RecordHealth,
    kind: CorruptionKind,
)
    requires
        w.valid(),
        w.winnable(),
        !w.unbudgeted,
    ensures
        w.lost_bytes(key, node, fires, last, draw, health, kind).valid(),
        w.lost_bytes(key, node, fires, last, draw, health, kind).winnable(),
        !w.lost_bytes(key, node, fires, last, draw, health, kind).unbudgeted,
{
    let targets = w.rot_targets(key);
    if fires && targets.len() > 0 {
        lemma_rot_targets(w, key);
        let slot = picked(targets, last, draw);
        if last {
            assert(targets[targets.len() - 1] == slot);
        } else {
            assert(targets[draw as int % targets.len() as int] == slot);
        }
        lemma_marks_keep_winnable(w, key, set![slot]);
        let health = SlotHealth { entry: health, id: WitnessStatus::Present };
        lemma_rot_entry(w, key, node, slot, health, kind, false);
        lemma_winnable_frame(
            w.mark(key, set![slot]),
            w.rot_entry(key, node, slot, health, kind, false),
        );
    }
}

/// Rewriting a disk without growing its log keeps the world valid.
proof fn lemma_disk_frame(w: WorldView, key: u64, disk: DiskView)
    requires
        w.valid(),
        w.disks.contains_key(key),
        disk.accepted == w.disks[key].accepted,
    ensures
        w.with_disk(key, disk).valid(),
{
    assert forall|k: u64| #[trigger] w.with_disk(key, disk).disks.contains_key(
        k,
    ) implies w.with_disk(key, disk).disks[k].accepted.dom().finite() by {
        assert(w.disks.contains_key(k));
    }
}

proof fn lemma_promise_rot_keeps_winnable(
    w: WorldView,
    key: u64,
    node: u64,
    fires: bool,
    both: bool,
    second: bool,
)
    requires
        w.valid(),
        w.winnable(),
        !w.unbudgeted,
    ensures
        w.promise_rot(key, node, fires, both, second).valid(),
        w.promise_rot(key, node, fires, both, second).winnable(),
        !w.promise_rot(key, node, fires, both, second).unbudgeted,
{
    let after = w.promise_rot(key, node, fires, both, second);
    if fires && w.disks.contains_key(key) {
        let health = after.disks[key].promise_health;
        lemma_disk_frame(w, key, DiskView { promise_health: health, ..w.disks[key] });
        if both && w.may_park(key) {
            law_budgeted_park_keeps_run_winnable(w, key, node);
            lemma_winnable_frame(w.park(key, node), after);
        } else {
            lemma_winnable_frame(w, after);
        }
    }
}

proof fn lemma_store_fault_keeps_winnable(w: WorldView, key: u64, node: u64, fires: bool, kind: u64)
    requires
        w.valid(),
        w.winnable(),
        !w.unbudgeted,
    ensures
        w.store_fault(key, node, fires, kind).valid(),
        w.store_fault(key, node, fires, kind).winnable(),
        !w.store_fault(key, node, fires, kind).unbudgeted,
{
    let after = w.store_fault(key, node, fires, kind);
    if fires && w.disks.contains_key(key) && w.may_park(key) {
        lemma_disk_frame(
            w,
            key,
            DiskView { meta_fault: after.disks[key].meta_fault, ..w.disks[key] },
        );
        law_budgeted_park_keeps_run_winnable(w, key, node);
        lemma_winnable_frame(w.park(key, node), after);
    }
}

proof fn lemma_rot_chunks_keep_winnable(
    w: WorldView,
    key: u64,
    node: u64,
    at: u64,
    chunks: nat,
    first: int,
    n: nat,
)
    requires
        w.valid(),
        w.winnable(),
        !w.unbudgeted,
    ensures
        w.rot_chunks(key, node, at, chunks, first, n).valid(),
        w.rot_chunks(key, node, at, chunks, first, n).winnable(),
        !w.rot_chunks(key, node, at, chunks, first, n).unbudgeted,
    decreases n,
{
    if n > 0 {
        lemma_rot_chunks_keep_winnable(w, key, node, at, chunks, first, (n - 1) as nat);
        let before = w.rot_chunks(key, node, at, chunks, first, (n - 1) as nat);
        let after = w.rot_chunks(key, node, at, chunks, first, n);
        if before.disks.contains_key(key) {
            lemma_disk_frame(
                before,
                key,
                DiskView {
                    snap_chunk_health: after.disks[key].snap_chunk_health,
                    ..before.disks[key]
                },
            );
        }
        lemma_winnable_frame(before, after);
    }
}

proof fn lemma_snapshot_rot_keeps_winnable(w: WorldView, key: u64, node: u64, fires: bool)
    requires
        w.valid(),
        w.winnable(),
        !w.unbudgeted,
    ensures
        w.snapshot_rot(key, node, fires).valid(),
        w.snapshot_rot(key, node, fires).winnable(),
        !w.snapshot_rot(key, node, fires).unbudgeted,
{
    if fires && w.may_rot_snapshot(key) {
        lemma_disk_frame(
            w,
            key,
            DiskView { snapshot_health: RecordHealth::Faulty, ..w.disks[key] },
        );
    }
    lemma_winnable_frame(w, w.snapshot_rot(key, node, fires));
}

proof fn lemma_chunk_rot_keeps_winnable(
    w: WorldView,
    key: u64,
    node: u64,
    fires: bool,
    count: u64,
    first: u64,
)
    requires
        w.valid(),
        w.winnable(),
        !w.unbudgeted,
    ensures
        w.chunk_rot(key, node, fires, count, first).valid(),
        w.chunk_rot(key, node, fires, count, first).winnable(),
        !w.chunk_rot(key, node, fires, count, first).unbudgeted,
{
    if fires && w.disks.contains_key(key) && w.disks[key].snap_point is Some {
        let point = w.disks[key].snap_point->0;
        let chunks = crate::records::chunks_of(point.state.blob.len(), w.chunk_bytes);
        if chunks > 0 {
            lemma_rot_chunks_keep_winnable(
                w,
                key,
                node,
                point.at,
                chunks,
                crate::rot::first_chunk(first, chunks),
                if count <= chunks {
                    count as nat
                } else {
                    chunks
                },
            );
        }
    }
}

proof fn lemma_read_rot_keeps_winnable(
    w: WorldView,
    key: u64,
    node: u64,
    fires: bool,
    kind: u64,
    pick: u64,
)
    requires
        w.valid(),
        w.winnable(),
    ensures
        w.read_rot(key, node, fires, kind, pick).valid(),
        w.read_rot(key, node, fires, kind, pick).winnable(),
{
    let after = w.read_rot(key, node, fires, kind, pick);
    if fires && w.disks.contains_key(key) {
        lemma_disk_frame(w, key, DiskView { read_eio: after.disks[key].read_eio, ..w.disks[key] });
    }
    lemma_winnable_frame(w, after);
}

/// One boot's rot, on a budgeted run, keeps the run winnable: whatever the
/// coins and the draws.
pub proof fn law_boot_rot_keeps_run_winnable(
    w: WorldView,
    key: u64,
    node: u64,
    coins: RotCoins,
    draws: RotDraws,
)
    requires
        w.valid(),
        w.winnable(),
        !w.unbudgeted,
    ensures
        w.boot_rot(key, node, coins, draws).valid(),
        w.boot_rot(key, node, coins, draws).winnable(),
{
    lemma_bit_flips_keep_winnable(w, key, node, coins, draws);
    let w1 = w.bit_flips(key, node, coins, draws);
    lemma_lost_bytes_keep_winnable(
        w1,
        key,
        node,
        coins.lost_write,
        coins.lost_write_last,
        draws.lost_write_pick,
        RecordHealth::Lost,
        CorruptionKind::LostWrite,
    );
    let w2 = w1.lost_bytes(
        key,
        node,
        coins.lost_write,
        coins.lost_write_last,
        draws.lost_write_pick,
        RecordHealth::Lost,
        CorruptionKind::LostWrite,
    );
    lemma_lost_bytes_keep_winnable(
        w2,
        key,
        node,
        coins.misdirect,
        coins.misdirect_last,
        draws.misdirect_pick,
        RecordHealth::Misdirected,
        CorruptionKind::Misdirected,
    );
    let w3 = w2.lost_bytes(
        key,
        node,
        coins.misdirect,
        coins.misdirect_last,
        draws.misdirect_pick,
        RecordHealth::Misdirected,
        CorruptionKind::Misdirected,
    );
    lemma_snapshot_rot_keeps_winnable(w3, key, node, coins.snapshot);
    let w4 = w3.snapshot_rot(key, node, coins.snapshot);
    lemma_promise_rot_keeps_winnable(
        w4,
        key,
        node,
        coins.promise,
        coins.promise_both,
        coins.promise_second,
    );
    let w5 = w4.promise_rot(key, node, coins.promise, coins.promise_both, coins.promise_second);
    lemma_store_fault_keeps_winnable(w5, key, node, coins.meta, draws.meta_kind);
    let w6 = w5.store_fault(key, node, coins.meta, draws.meta_kind);
    lemma_chunk_rot_keeps_winnable(
        w6,
        key,
        node,
        coins.snap_chunk,
        draws.chunks,
        draws.chunk_first,
    );
    let w7 = w6.chunk_rot(key, node, coins.snap_chunk, draws.chunks, draws.chunk_first);
    lemma_read_rot_keeps_winnable(w7, key, node, coins.read_eio, draws.read_kind, draws.read_pick);
}

/// A boot scan keeps the run winnable, as long as a node it takes down for good
/// may be parked.
pub proof fn law_scan_keeps_run_winnable(s: StorageView, w: WorldView, cases: Seq<SlotCase>)
    requires
        w.valid(),
        w.winnable(),
        s.boot_scan(w, cases).error is None || w.may_park(s.key),
    ensures
        s.boot_scan(w, cases).world.winnable(),
{
    let after = s.boot_scan(w, cases).world;
    let tail = crate::durability::crash_tail(s.evidence.records, cases);
    crate::durability::lemma_scan_budget_inputs(s, w, cases);
    law_rewrites_keep_run_winnable(w, s.key, tail);
    if after.parked == w.parked {
        if after.marks == w.marks {
            lemma_winnable_frame(w, after);
        } else {
            lemma_winnable_frame(w.clear_marks(s.key, tail), after);
        }
    } else {
        law_budgeted_park_keeps_run_winnable(w, s.key, s.node_id);
        lemma_winnable_frame(w.park(s.key, s.node_id), after);
    }
}

} // verus!
