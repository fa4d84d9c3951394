//! What rot does and does not do: which records it may hit, what the next boot
//! reads of them, what goes on the books, when a slot is lost for good, and what
//! a run must show for it at its end.
use crate::disk::{DiskView, RecordHealth, SlotHealth};
use crate::flush::chunk_name;
use crate::gates::crash_count;
use crate::ordered::{MapKey, ascending, lemma_ascending_lists};
use crate::records::{MetadataFault, StorageRecord, WitnessStatus, chunks_of};
use crate::rot::{RotCoins, RotDraws, RotRates, picked};
use crate::world::{
    CorruptionInjection, CorruptionKind, CorruptionOutcome, InjectedFault, Sighting, WorldView,
    dormant_at, just, less, only, open_at,
};
use vstd::prelude::*;

verus! {

/// The ledger of `after` is that of `before` with one unread injection more.
pub open spec fn books_one(
    before: WorldView,
    after: WorldView,
    node: u64,
    record: StorageRecord,
    kind: CorruptionKind,
) -> bool {
    &&& after.corruptions.len() == before.corruptions.len() + 1
    &&& after.corruptions.drop_last() == before.corruptions
    &&& after.corruptions.last().node == node
    &&& after.corruptions.last().record == record
    &&& after.corruptions.last().kind == kind
    &&& after.corruptions.last().outcome == CorruptionOutcome::Dormant
}

/// Every disk but that of `key` is as it was.
pub open spec fn spares_others(before: WorldView, after: WorldView, key: u64) -> bool {
    &&& after.disks.dom() == before.disks.dom()
    &&& forall|k: u64|
        k != key && #[trigger] before.disks.contains_key(k) ==> after.disks[k] == before.disks[k]
}

/// A majority of a cluster: any two meet, and no smaller count would do. What is
/// left beside it is the number of nodes that may die.
pub proof fn law_quorum_is_a_tight_majority(w: WorldView)
    requires
        w.cluster_size > 0,
    ensures
        2 * w.quorum() > w.cluster_size,
        2 * (w.quorum() - 1) <= w.cluster_size,
        w.quorum() <= w.cluster_size,
        w.quorum() + w.dead_budget() == w.cluster_size,
{
}

/// A record may be hit exactly while, without this node's copy, a quorum of nodes
/// is left that neither lost it, nor truncated past it, nor is down for good.
pub proof fn law_budget_counts_the_clean_nodes(w: WorldView, key: u64, slot: u64)
    requires
        w.valid(),
        w.cluster_size > 0,
    ensures
        !w.unclean(slot).contains(key) ==> (w.copies_without(key, slot) >= w.quorum() <==> w.unclean(
            slot,
        ).insert(key).len() + w.quorum() <= w.cluster_size),
        w.marked(key, slot) ==> (w.copies_without(key, slot) >= w.quorum() <==> w.unclean(slot).len()
            + w.quorum() <= w.cluster_size),
        forall|k: u64| #[trigger]
            w.unclean(slot).contains(k) <==> w.marked(k, slot) || w.parked.contains(k) || (
            w.disks.contains_key(k) && w.disks[k].first_slot > slot),
        w.may_corrupt_record(key, slot) <==> w.unbudgeted || w.copies_without(key, slot)
            >= w.quorum(),
{
    assert(w.unclean(slot).finite());
}

/// Rot picks among the records that read clean and that the budget lets go, and
/// among all of those.
pub proof fn law_rot_picks_clean_records(w: WorldView, key: u64, slot: u64)
    requires
        w.valid(),
        w.disks.contains_key(key),
    ensures
        w.rot_targets(key).contains(slot) <==> {
            &&& w.disks[key].accepted.contains_key(slot)
            &&& w.disks[key].slot_health(slot).entry == RecordHealth::Clean
            &&& w.disks[key].slot_health(slot).id == WitnessStatus::Present
            &&& w.may_corrupt_record(key, slot)
        },
        forall|i: int, j: int|
            0 <= i < j < w.rot_targets(key).len() ==> #[trigger] w.rot_targets(key)[i]
                < #[trigger] w.rot_targets(key)[j],
{
    let clean = w.disks[key].clean_slots();
    let pred = |s: u64| w.may_corrupt_record(key, s);
    let targets = clean.filter(pred);
    assert(targets.finite());
    lemma_ascending_lists(targets);
    assert(targets.contains(slot) <==> clean.contains(slot) && w.may_corrupt_record(key, slot));
    let list = w.rot_targets(key);
    assert(list == ascending(targets));
    assert forall|i: int, j: int| 0 <= i < j < list.len() implies #[trigger] list[i]
        < #[trigger] list[j] by {
        assert(list[i].rank() < list[j].rank());
    }
}

/// The pick is the last target where the coin asks for the last, and otherwise
/// the draw's own, round the list.
pub proof fn law_pick_is_a_target(slots: Seq<u64>, last: bool, draw: u64)
    requires
        slots.len() > 0,
    ensures
        slots.contains(picked(slots, last, draw)),
        last ==> picked(slots, last, draw) == slots[slots.len() - 1],
        !last && draw < slots.len() ==> picked(slots, last, draw) == slots[draw as int],
        !last && draw + slots.len() <= u64::MAX ==> picked(slots, last, draw) == picked(
            slots,
            last,
            (draw + slots.len()) as u64,
        ),
{
    let n = slots.len() as int;
    vstd::arithmetic::div_mod::lemma_mod_bound(draw as int, n);
    if !last {
        assert(slots[draw as int % n] == picked(slots, last, draw));
        if draw < n {
            vstd::arithmetic::div_mod::lemma_small_mod(draw as nat, n as nat);
        }
        vstd::arithmetic::div_mod::lemma_mod_add_multiples_vanish(draw as int, n);
        assert((n + draw as int) % n == draw as int % n);
    }
}

/// One record's rot is read back as it was inflicted and marks the record; every
/// other record, the bytes themselves, and every other disk are spared, and one
/// unread injection goes on the books.
pub proof fn law_entry_rot_hits_one_record(
    w: WorldView,
    key: u64,
    node: u64,
    slot: u64,
    health: SlotHealth,
    kind: CorruptionKind,
    block: bool,
    other: u64,
)
    requires
        w.disks.contains_key(key),
        other != slot,
    ensures
        ({
            let after = w.rot_entry(key, node, slot, health, kind, block);
            let was = w.disks[key];
            let now = after.disks[key];
            &&& now.slot_health(slot) == health
            &&& now.slot_health(other) == was.slot_health(other)
            &&& now == DiskView { entry_health: now.entry_health, ..was }
            &&& after.marked(key, slot)
            &&& after.marked(key, other) <==> w.marked(key, other)
            &&& spares_others(w, after, key)
            &&& books_one(w, after, node, StorageRecord::Accepted(slot), kind)
            &&& after.corruptions.last().block == block
            &&& after.parked == w.parked
            &&& after.unrecoverable.contains(other) <==> w.unrecoverable.contains(other)
            &&& after.unrecoverable.contains(slot) <==> w.unrecoverable.contains(slot) || (
            w.unbudgeted && after.slot_unrecoverable(slot))
        }),
{
    let after = w.rot_entry(key, node, slot, health, kind, block);
    assert(after.corruptions.drop_last() =~= w.corruptions);
    assert(after.disks.dom() =~= w.disks.dom());
    let mid = WorldView { unrecoverable: w.unrecoverable, ..after };
    lemma_same_service(mid, after, slot);
    lemma_same_service(mid, after, other);
}

/// Whether a slot can be had depends on the disks and the parked nodes alone.
proof fn lemma_same_service(a: WorldView, b: WorldView, slot: u64)
    requires
        a.disks == b.disks,
        a.parked == b.parked,
        a.chunk_bytes == b.chunk_bytes,
    ensures
        a.slot_unrecoverable(slot) == b.slot_unrecoverable(slot),
{
    assert forall|key: u64| #[trigger] a.serves(key, slot) == b.serves(key, slot) by {}
    assert forall|at: u64| #[trigger] a.assemblable(at) == b.assemblable(at) by {
        assert forall|key: u64| #[trigger] a.live_disk(key) == b.live_disk(key) by {}
        assert forall|chunk: int| #[trigger]
            a.chunk_served(at, chunk) == b.chunk_served(at, chunk) by {
            assert forall|key: u64| #[trigger]
                a.live_clean_chunk(key, at, chunk) == b.live_clean_chunk(key, at, chunk) by {}
            if a.chunk_served(at, chunk) {
                let key = choose|key: u64| #[trigger] a.live_clean_chunk(key, at, chunk);
                assert(b.live_clean_chunk(key, at, chunk));
            }
            if b.chunk_served(at, chunk) {
                let key = choose|key: u64| #[trigger] b.live_clean_chunk(key, at, chunk);
                assert(a.live_clean_chunk(key, at, chunk));
            }
        }
        if a.assemblable(at) {
            let key = choose|key: u64| #[trigger] a.live_disk(key) && a.disks[key].has_point(at);
            assert(b.live_disk(key) && b.disks[key].has_point(at));
            assert forall|chunk: int|
                0 <= chunk < b.point_chunks(at) implies #[trigger] b.chunk_served(at, chunk) by {
                assert(a.chunk_served(at, chunk));
            }
        }
        if b.assemblable(at) {
            let key = choose|key: u64| #[trigger] b.live_disk(key) && b.disks[key].has_point(at);
            assert(a.live_disk(key) && a.disks[key].has_point(at));
            assert forall|chunk: int|
                0 <= chunk < a.point_chunks(at) implies #[trigger] a.chunk_served(at, chunk) by {
                assert(b.chunk_served(at, chunk));
            }
        }
    }
    if a.slot_unrecoverable(slot) {
        assert forall|key: u64| !#[trigger] b.serves(key, slot) by {
            assert(!a.serves(key, slot));
        }
        assert forall|at: u64| at >= slot implies !#[trigger] b.assemblable(at) by {
            assert(!a.assemblable(at));
        }
    }
    if b.slot_unrecoverable(slot) {
        assert forall|key: u64| !#[trigger] a.serves(key, slot) by {
            assert(!b.serves(key, slot));
        }
        assert forall|at: u64| at >= slot implies !#[trigger] a.assemblable(at) by {
            assert(!b.assemblable(at));
        }
    }
}

/// A lost or misdirected write hits exactly one target, whose identity survives,
/// and only where the coin falls and there is a target.
pub proof fn law_lost_write_hits_one_target(
    w: WorldView,
    key: u64,
    node: u64,
    fires: bool,
    last: bool,
    pick: u64,
    health: RecordHealth,
    kind: CorruptionKind,
)
    requires
        w.disks.contains_key(key),
    ensures
        ({
            let targets = w.rot_targets(key);
            let after = w.lost_bytes(key, node, fires, last, pick, health, kind);
            if fires && targets.len() > 0 {
                exists|slot: u64|
                    {
                        &&& #[trigger] targets.contains(slot)
                        &&& last ==> slot == targets.last()
                        &&& after.disks[key].slot_health(slot).entry == health
                        &&& after.disks[key].slot_health(slot).id == WitnessStatus::Present
                        &&& books_one(w, after, node, StorageRecord::Accepted(slot), kind)
                        &&& !after.corruptions.last().block
                        &&& forall|other: u64|
                            other != slot ==> #[trigger] after.disks[key].slot_health(other)
                                == w.disks[key].slot_health(other)
                    }
            } else {
                after == w
            }
        }),
{
    let targets = w.rot_targets(key);
    if fires && targets.len() > 0 {
        let slot = picked(targets, last, pick);
        law_pick_is_a_target(targets, last, pick);
        let after = w.lost_bytes(key, node, fires, last, pick, health, kind);
        assert(after.corruptions.drop_last() =~= w.corruptions);
        assert(targets.contains(slot));
    }
}

/// The member of a block fault at `slot` of `after`.
pub open spec fn flipped(after: WorldView, key: u64, slot: u64) -> bool {
    after.disks[key].slot_health(slot).entry == RecordHealth::Faulty
}

proof fn lemma_block(
    w: WorldView,
    key: u64,
    node: u64,
    slots: Seq<u64>,
    primary: u64,
    id_faulty: bool,
    block: bool,
)
    requires
        w.disks.contains_key(key),
    ensures
        ({
            let after = w.rot_block(key, node, slots, primary, id_faulty, block);
            &&& after.disks.contains_key(key)
            &&& spares_others(w, after, key)
            &&& after.parked == w.parked
            &&& after.parked_ids == w.parked_ids
            &&& after.corruptions.len() == w.corruptions.len() + slots.len()
            &&& after.disks[key] == DiskView {
                entry_health: after.disks[key].entry_health,
                ..w.disks[key]
            }
            &&& forall|slot: u64|
                #![trigger after.disks[key].slot_health(slot)]
                if slots.contains(slot) {
                    &&& after.disks[key].slot_health(slot).entry == RecordHealth::Faulty
                    &&& after.disks[key].slot_health(slot).id == if slot == primary && id_faulty {
                        WitnessStatus::Faulty
                    } else {
                        WitnessStatus::Present
                    }
                } else {
                    after.disks[key].slot_health(slot) == w.disks[key].slot_health(slot)
                }
            &&& forall|slot: u64|
                #![trigger after.marked(key, slot)]
                after.marked(key, slot) <==> w.marked(key, slot) || slots.contains(slot)
            &&& forall|i: int|
                0 <= i < w.corruptions.len() ==> #[trigger] after.corruptions[i]
                    == w.corruptions[i]
            &&& forall|i: int|
                #![trigger slots[i]]
                0 <= i < slots.len() ==> after.corruptions[w.corruptions.len() + i]
                    == CorruptionInjection {
                    node,
                    record: StorageRecord::Accepted(slots[i]),
                    kind: CorruptionKind::BitFlip,
                    block,
                    outcome: CorruptionOutcome::Dormant,
                }
        }),
    decreases slots.len(),
{
    if slots.len() > 0 {
        let front = slots.drop_last();
        let last = slots.last();
        lemma_block(w, key, node, front, primary, id_faulty, block);
        let before = w.rot_block(key, node, front, primary, id_faulty, block);
        let after = w.rot_block(key, node, slots, primary, id_faulty, block);
        assert(after.disks.dom() =~= w.disks.dom());
        assert forall|slot: u64| slots.contains(slot) == (front.contains(slot) || slot == last) by {
            if slots.contains(slot) {
                let i = choose|i: int| 0 <= i < slots.len() && slots[i] == slot;
                if i < front.len() {
                    assert(front[i] == slot);
                }
            }
            if front.contains(slot) {
                let i = choose|i: int| 0 <= i < front.len() && front[i] == slot;
                assert(slots[i] == slot);
            }
            if slot == last {
                assert(slots[slots.len() - 1] == slot);
            }
        }
        assert forall|slot: u64|
            #![trigger after.disks[key].slot_health(slot)]
            if slots.contains(slot) {
                &&& after.disks[key].slot_health(slot).entry == RecordHealth::Faulty
                &&& after.disks[key].slot_health(slot).id == if slot == primary && id_faulty {
                    WitnessStatus::Faulty
                } else {
                    WitnessStatus::Present
                }
            } else {
                after.disks[key].slot_health(slot) == w.disks[key].slot_health(slot)
            } by {
            if slot != last {
                assert(after.disks[key].slot_health(slot) == before.disks[key].slot_health(slot));
            }
        }
        assert forall|slot: u64|
            #![trigger after.marked(key, slot)]
            after.marked(key, slot) <==> w.marked(key, slot) || slots.contains(slot) by {
            assert(before.marked(key, slot) <==> w.marked(key, slot) || front.contains(slot));
        }
        assert forall|i: int|
            #![trigger slots[i]]
            0 <= i < slots.len() implies after.corruptions[w.corruptions.len() + i]
            == (CorruptionInjection {
            node,
            record: StorageRecord::Accepted(slots[i]),
            kind: CorruptionKind::BitFlip,
            block,
            outcome: CorruptionOutcome::Dormant,
        }) by {
            if i < front.len() {
                assert(front[i] == slots[i]);
            }
        }
    }
}

/// Bit flips hit targets only: one, or with the block coin those among the last
/// `entry_width` slots up to the one picked. A record that loses its identity too
/// costs its node, so it is hit only where the node may be lost, and the node is
/// then parked.
pub proof fn law_bit_flips_hit_a_run_of_targets(
    w: WorldView,
    key: u64,
    node: u64,
    coins: RotCoins,
    draws: RotDraws,
    slot: u64,
)
    requires
        w.disks.contains_key(key),
    ensures
        ({
            let targets = w.rot_targets(key);
            let after = w.bit_flips(key, node, coins, draws);
            let primary = picked(targets, coins.entry_last, draws.entry_pick);
            let parks = coins.entry_id && w.may_park(key);
            if coins.entry && targets.len() > 0 {
                let hit = if coins.entry_block {
                    targets.contains(slot) && slot <= primary && primary < slot + draws.entry_width
                } else {
                    slot == primary
                };
                &&& hit ==> flipped(after, key, slot) && after.marked(key, slot)
                &&& hit ==> (after.disks[key].slot_health(slot).id == WitnessStatus::Faulty <==> slot
                    == primary && parks)
                &&& !hit ==> after.disks[key].slot_health(slot) == w.disks[key].slot_health(slot)
                    && (after.marked(key, slot) <==> w.marked(key, slot))
                &&& after.parked == if parks {
                    w.parked.insert(key)
                } else {
                    w.parked
                }
                &&& spares_others(w, after, key)
                &&& after.disks[key].accepted == w.disks[key].accepted
                &&& !coins.entry_block ==> books_one(
                    w,
                    after,
                    node,
                    StorageRecord::Accepted(primary),
                    CorruptionKind::BitFlip,
                ) && !after.corruptions.last().block
            } else {
                after == w
            }
        }),
{
    let targets = w.rot_targets(key);
    if coins.entry && targets.len() > 0 {
        let primary = picked(targets, coins.entry_last, draws.entry_pick);
        law_pick_is_a_target(targets, coins.entry_last, draws.entry_pick);
        let id_faulty = coins.entry_id && w.may_park(key);
        let members = if coins.entry_block {
            w.block_members(key, primary, draws.entry_width)
        } else {
            seq![primary]
        };
        let pred = |s: u64| s + draws.entry_width > primary && s <= primary;
        if coins.entry_block {
            if members.contains(slot) {
                let i = choose|i: int| 0 <= i < members.len() && members[i] == slot;
                targets.lemma_filter_pred(pred, i);
                targets.lemma_filter_contains_rev(pred, slot);
            }
            if targets.contains(slot) && pred(slot) {
                let i = choose|i: int| 0 <= i < targets.len() && targets[i] == slot;
                targets.lemma_filter_contains(pred, i);
            }
        } else {
            assert(members[0] == primary);
        }
        lemma_block(w, key, node, members, primary, id_faulty, members.len() > 1);
        let rotted = w.rot_block(key, node, members, primary, id_faulty, members.len() > 1);
        let after = w.bit_flips(key, node, coins, draws);
        assert(after.disks == rotted.disks);
        assert(after.marks == rotted.marks);
        assert(after.marked(key, slot) == rotted.marked(key, slot));
        assert(rotted.disks[key].slot_health(slot) == after.disks[key].slot_health(slot));
        if !coins.entry_block {
            assert(after.corruptions.drop_last() =~= w.corruptions);
        }
    }
}

/// The live snapshot rots only where there is one and losing it does not lose
/// the cluster its last copy of a truncated prefix.
pub proof fn law_snapshot_rot_needs_a_way_back(w: WorldView, key: u64, node: u64, fires: bool)
    requires
        w.disks.contains_key(key),
    ensures
        ({
            let d = w.disks[key];
            let after = w.snapshot_rot(key, node, fires);
            let rots = fires && d.chain.applied_count > 0 && (w.unbudgeted || w.cluster_size > 1
                || d.first_slot == 0);
            &&& rots ==> {
                &&& after.disks[key] == DiskView { snapshot_health: RecordHealth::Faulty, ..d }
                &&& spares_others(w, after, key)
                &&& books_one(w, after, node, StorageRecord::Snapshot, CorruptionKind::BitFlip)
                &&& forall|slot: u64| #[trigger]
                    after.unrecoverable.contains(slot) ==> w.unrecoverable.contains(slot) || slot
                        < d.first_slot && w.unbudgeted
                &&& after.parked == w.parked && after.marks == w.marks
            }
            &&& !rots ==> after == w
        }),
{
    let after = w.snapshot_rot(key, node, fires);
    if after != w {
        assert(after.disks.dom() =~= w.disks.dom());
        assert(after.corruptions.drop_last() =~= w.corruptions);
    }
}

/// A promise rots in one copy only while its twin is clean, in the copy the coin
/// names; in both copies only where the node may be lost, and then it is parked,
/// with one injection on the books for each copy.
pub proof fn law_promise_rot_leaves_a_copy(
    w: WorldView,
    key: u64,
    node: u64,
    fires: bool,
    both: bool,
    second: bool,
)
    requires
        w.disks.contains_key(key),
    ensures
        ({
            let was = w.disks[key].promise_health;
            let after = w.promise_rot(key, node, fires, both, second);
            let now = after.disks[key].promise_health;
            &&& fires && both && w.may_park(key) ==> {
                &&& now == (RecordHealth::Faulty, RecordHealth::Faulty)
                &&& after.parked == w.parked.insert(key)
                &&& after.parked_ids == w.parked_ids.insert(node)
                &&& after.corruptions.len() == w.corruptions.len() + 2
            }
            &&& fires && !both && second && was.0 == RecordHealth::Clean ==> {
                &&& now == (RecordHealth::Clean, RecordHealth::Faulty)
                &&& after.parked == w.parked
                &&& books_one(w, after, node, StorageRecord::Promise, CorruptionKind::PromiseCopy)
            }
            &&& fires && !both && !second && was.1 == RecordHealth::Clean ==> {
                &&& now == (RecordHealth::Faulty, RecordHealth::Clean)
                &&& after.parked == w.parked
                &&& books_one(w, after, node, StorageRecord::Promise, CorruptionKind::PromiseCopy)
            }
            &&& !fires ==> after == w
            &&& both && !w.may_park(key) ==> after == w
            &&& !both && second && was.0 != RecordHealth::Clean ==> after == w
            &&& !both && !second && was.1 != RecordHealth::Clean ==> after == w
            &&& spares_others(w, after, key)
            &&& after.disks[key] == DiskView { promise_health: now, ..w.disks[key] }
            &&& after.marks == w.marks
        }),
{
    let after = w.promise_rot(key, node, fires, both, second);
    assert(after.disks.dom() =~= w.disks.dom());
    if fires && !both && after != w {
        assert(after.corruptions.drop_last() =~= w.corruptions);
    }
}

/// A fault of the store costs its node, so it strikes only where the node may be
/// lost, and parks it.
pub proof fn law_store_fault_parks_its_node(
    w: WorldView,
    key: u64,
    node: u64,
    fires: bool,
    kind: u64,
)
    requires
        w.disks.contains_key(key),
    ensures
        ({
            let after = w.store_fault(key, node, fires, kind);
            if fires && w.may_park(key) {
                &&& after.disks[key].meta_fault == Some(
                    if kind % 3 == 0 {
                        MetadataFault::Missing
                    } else if kind % 3 == 1 {
                        MetadataFault::WrongSize
                    } else {
                        MetadataFault::ReadOnly
                    },
                )
                &&& after.disks[key] == DiskView {
                    meta_fault: after.disks[key].meta_fault,
                    ..w.disks[key]
                }
                &&& after.parked == w.parked.insert(key)
                &&& after.parked_ids == w.parked_ids.insert(node)
                &&& spares_others(w, after, key)
                &&& books_one(w, after, node, StorageRecord::Store, CorruptionKind::Metadata)
            } else {
                after == w
            }
        }),
{
    let after = w.store_fault(key, node, fires, kind);
    if fires && w.may_park(key) {
        assert(after.disks.dom() =~= w.disks.dom());
        assert(after.corruptions.drop_last() =~= w.corruptions);
    }
}

/// A read error is pending on one record that the node has, and only that: the
/// record itself is whole.
pub proof fn law_read_error_names_a_held_record(
    w: WorldView,
    key: u64,
    node: u64,
    kind: u64,
    pick: u64,
)
    requires
        w.valid(),
        w.disks.contains_key(key),
    ensures
        w.read_rot(key, node, false, kind, pick) == w,
        ({
            let after = w.read_rot(key, node, true, kind, pick);
            let record = after.disks[key].read_eio;
            &&& record is Some
            &&& record->0 matches StorageRecord::Accepted(slot)
                ==> w.disks[key].accepted.contains_key(slot)
            &&& kind % 5 == 0 ==> record == Some(StorageRecord::ChosenIndex)
            &&& kind % 5 == 1 ==> record == Some(StorageRecord::Truncation)
            &&& kind % 5 == 2 ==> record == Some(StorageRecord::Snapshot)
            &&& kind % 5 >= 3 ==> record->0 is Accepted || record->0 is Promise
            &&& kind % 5 >= 3 && record->0 is Promise ==> forall|slot: u64|
                !#[trigger] w.disks[key].accepted.contains_key(slot)
            &&& after.disks[key] == DiskView { read_eio: record, ..w.disks[key] }
            &&& spares_others(w, after, key)
            &&& books_one(w, after, node, record->0, CorruptionKind::ReadEio)
            &&& after.marks == w.marks && after.parked == w.parked
        }),
{
    let dom = w.disks[key].accepted.dom();
    let slots = ascending(dom);
    lemma_ascending_lists(dom);
    let after = w.read_rot(key, node, true, kind, pick);
    assert(after.disks.dom() =~= w.disks.dom());
    assert(after.corruptions.drop_last() =~= w.corruptions);
    if slots.len() > 0 {
        vstd::arithmetic::div_mod::lemma_mod_bound(pick as int, slots.len() as int);
        assert(slots.contains(slots[pick as int % slots.len() as int]));
    } else {
        assert forall|slot: u64| !#[trigger] w.disks[key].accepted.contains_key(slot) by {
            if dom.contains(slot) {
                assert(slots.contains(slot));
            }
        }
    }
}

/// One chunk rots exactly if it reads clean and, without this copy, a quorum of
/// live nodes still holds it clean; a case without a budget rots it regardless.
pub proof fn law_chunk_rot_is_budgeted(
    w: WorldView,
    key: u64,
    node: u64,
    at: u64,
    chunks: nat,
    chunk: int,
    other: int,
)
    requires
        w.disks.contains_key(key),
        0 <= chunk < chunks,
        other != chunk,
    ensures
        ({
            let d = w.disks[key];
            let after = w.rot_chunk(key, node, at, chunks, chunk);
            let clean = chunk < d.snap_chunk_health.len() ==> d.snap_chunk_health[chunk]
                == RecordHealth::Clean;
            let spare = w.unbudgeted || w.chunk_copies(at, chunk) >= w.quorum() + 1 || w.quorum()
                == 0;
            &&& clean && spare ==> {
                &&& !after.disks[key].chunk_clean(chunk)
                &&& after.disks[key].chunk_clean(other) == d.chunk_clean(other)
                &&& after.disks[key] == DiskView {
                    snap_chunk_health: after.disks[key].snap_chunk_health,
                    ..d
                }
                &&& spares_others(w, after, key)
                &&& books_one(
                    w,
                    after,
                    node,
                    StorageRecord::SnapChunk(at, chunk_name(chunk)),
                    CorruptionKind::BitFlip,
                )
            }
            &&& !(clean && spare) ==> after == w
        }),
{
    let after = w.rot_chunk(key, node, at, chunks, chunk);
    if after != w {
        assert(after.disks.dom() =~= w.disks.dom());
        assert(after.corruptions.drop_last() =~= w.corruptions);
    }
}

/// The injection at `i` concerns this record of this node and nobody has read it
/// yet.
pub open spec fn unread(
    corruptions: Seq<CorruptionInjection>,
    node: u64,
    record: StorageRecord,
    i: int,
) -> bool {
    &&& 0 <= i < corruptions.len()
    &&& corruptions[i].node == node
    &&& corruptions[i].record == record
    &&& corruptions[i].outcome == CorruptionOutcome::Dormant
}

/// Reading a record back decides its unread injections, all of them at once: the
/// first takes the decision, the others are covered by it. Everything else on
/// the books stays as it was.
pub proof fn law_read_back_decides_once(
    w: WorldView,
    node: u64,
    record: StorageRecord,
    outcome: CorruptionOutcome,
    i: int,
)
    requires
        0 <= i < w.corruptions.len(),
    ensures
        ({
            let after = w.resolve(node, record, outcome);
            let was = w.corruptions[i];
            let now = after.corruptions[i];
            let first = forall|j: int|
                0 <= j < i ==> !#[trigger] unread(w.corruptions, node, record, j);
            &&& after.corruptions.len() == w.corruptions.len()
            &&& !unread(w.corruptions, node, record, i) ==> now == was
            &&& unread(w.corruptions, node, record, i) ==> {
                &&& now.node == node && now.record == record && now.kind == was.kind && now.block
                    == was.block
                &&& first ==> now.outcome == outcome
                &&& !first ==> now.outcome == CorruptionOutcome::CoDetected
            }
            &&& unread(w.corruptions, node, record, i) && was.block ==> after.seen.contains(
                Sighting::BlockDetected,
            )
            &&& after.disks == w.disks && after.marks == w.marks && after.parked == w.parked
        }),
{
    if unread(w.corruptions, node, record, i) {
        assert(dormant_at(w.corruptions, node, record, i));
        if exists|j: int| j < i && #[trigger] dormant_at(w.corruptions, node, record, j) {
            let j = choose|j: int|
                j < i && #[trigger] dormant_at(w.corruptions, node, record, j);
            assert(unread(w.corruptions, node, record, j));
        }
        if exists|j: int| 0 <= j < i && #[trigger] unread(w.corruptions, node, record, j) {
            let j = choose|j: int| 0 <= j < i && #[trigger] unread(w.corruptions, node, record, j);
            assert(dormant_at(w.corruptions, node, record, j));
        }
    }
}

/// A re-written record's injections are recovered where they were unread or
/// reported; those with any other outcome keep it.
pub proof fn law_rewrite_recovers_the_standing(
    w: WorldView,
    node: u64,
    record: StorageRecord,
    i: int,
)
    requires
        0 <= i < w.corruptions.len(),
    ensures
        ({
            let after = w.note_recovered(node, record);
            let was = w.corruptions[i];
            let standing = was.node == node && was.record == record && (was.outcome
                == CorruptionOutcome::Dormant || was.outcome == CorruptionOutcome::Reported);
            &&& after.corruptions.len() == w.corruptions.len()
            &&& standing ==> after.corruptions[i] == (CorruptionInjection {
                outcome: CorruptionOutcome::Recovered,
                ..was
            }) && after.seen.contains(Sighting::RecordRecovered)
            &&& !standing ==> after.corruptions[i] == was
            &&& after.disks == w.disks && after.marks == w.marks && after.parked == w.parked
        }),
{
    let standing = w.corruptions[i].node == node && w.corruptions[i].record == record && (
    w.corruptions[i].outcome == CorruptionOutcome::Dormant || w.corruptions[i].outcome
        == CorruptionOutcome::Reported);
    if standing {
        assert(open_at(w.corruptions, node, only(record), i));
    }
}

/// A slot is lost for good only if no live node can serve it from its log or its
/// snapshot: one clean copy anywhere, or one live node with a clean snapshot past
/// it, and it is not lost. A parked node serves nothing.
pub proof fn law_one_copy_is_enough(w: WorldView, key: u64, slot: u64)
    requires
        w.disks.contains_key(key),
        !w.parked.contains(key),
    ensures
        w.disks[key].accepted.contains_key(slot) && !w.disks[key].entry_health.contains_key(slot)
            ==> !w.slot_unrecoverable(slot),
        w.disks[key].first_slot > slot && w.disks[key].snapshot_health == RecordHealth::Clean
            ==> !w.slot_unrecoverable(slot),
        forall|other: u64| w.parked.contains(other) ==> !#[trigger] w.serves(other, slot),
{
    if w.disks[key].accepted.contains_key(slot) && !w.disks[key].entry_health.contains_key(slot) {
        assert(w.serves(key, slot));
    }
    if w.disks[key].first_slot > slot && w.disks[key].snapshot_health == RecordHealth::Clean {
        assert(w.serves(key, slot));
    }
}

/// A slot is lost for good where every live node's copy is missing or bad, no
/// live node's clean snapshot reaches past it, and no live node retains a point
/// at or past it.
pub proof fn law_no_copy_is_lost(w: WorldView, slot: u64)
    requires
        forall|key: u64|
            #![trigger w.disks.contains_key(key)]
            w.disks.contains_key(key) && !w.parked.contains(key) ==> {
                &&& w.disks[key].accepted.contains_key(slot) ==> w.disks[key].slot_health(slot)
                    != SlotHealth::sound()
                &&& w.disks[key].first_slot > slot ==> w.disks[key].snapshot_health
                    != RecordHealth::Clean
                &&& w.disks[key].snap_point is Some ==> w.disks[key].snap_point->0.at < slot
            },
    ensures
        w.slot_unrecoverable(slot),
        w.unbudgeted ==> w.note_unrecoverable(just(slot)).unrecoverable.contains(slot),
        !w.unbudgeted ==> w.note_unrecoverable(just(slot)) == w,
{
    assert forall|key: u64| !#[trigger] w.serves(key, slot) by {
        if w.disks.contains_key(key) {}
    }
    assert forall|at: u64| at >= slot implies !#[trigger] w.assemblable(at) by {
        if w.assemblable(at) {
            let key = choose|key: u64| #[trigger] w.live_disk(key) && w.disks[key].has_point(at);
            assert(w.disks.contains_key(key));
        }
    }
}

/// The entries that surfaced as a crash decision.
pub open spec fn crashes_among(corruptions: Seq<CorruptionInjection>) -> Set<int> {
    Set::new(
        |i: int| 0 <= i < corruptions.len() && corruptions[i].outcome == CorruptionOutcome::Crashed,
    )
}

proof fn lemma_crashes(corruptions: Seq<CorruptionInjection>)
    ensures
        crashes_among(corruptions).finite(),
        crashes_among(corruptions).len() == crash_count(corruptions),
    decreases corruptions.len(),
{
    if corruptions.len() == 0 {
        assert(crashes_among(corruptions) =~= Set::<int>::empty());
    } else {
        let front = corruptions.drop_last();
        lemma_crashes(front);
        if corruptions.last().outcome == CorruptionOutcome::Crashed {
            assert(crashes_among(corruptions) =~= crashes_among(front).insert(
                corruptions.len() - 1,
            ));
        } else {
            assert(crashes_among(corruptions) =~= crashes_among(front));
        }
    }
}

/// A run passes exactly where every injected fault and every crashed corruption
/// was surfaced once, every other injection was read or could not be, no marked
/// record lost its clean quorum, and no quorum of nodes went down. Lag is a fact
/// of coverage, and decides nothing.
pub proof fn law_run_passes_where_all_is_accounted_for(
    w: WorldView,
    faults: u64,
    corruptions: u64,
    lag: bool,
)
    requires
        w.valid(),
        w.cluster_size > 0,
    ensures
        w.storage_verdict(faults, corruptions, lag).passes() <==> {
            &&& faults == w.injected.len()
            &&& corruptions == crashes_among(w.corruptions).len()
            &&& forall|i: int|
                0 <= i < w.corruptions.len() && (#[trigger] w.corruptions[i]).outcome
                    == CorruptionOutcome::Dormant ==> w.corruptions[i].kind
                    == CorruptionKind::TornTail || w.parked_ids.contains(w.corruptions[i].node)
            &&& forall|slot: u64| #[trigger]
                w.marked_anywhere(slot) ==> w.lost_at(slot).len() + w.quorum() <= w.cluster_size
            &&& w.parked.len() + w.quorum() <= w.cluster_size
        },
        w.storage_verdict(faults, corruptions, lag).compound <==> lag && w.corruptions.len() > 0,
{
    lemma_crashes(w.corruptions);
    let verdict = w.storage_verdict(faults, corruptions, lag);
    if forall|slot: u64| #[trigger]
        w.marked_anywhere(slot) ==> w.lost_at(slot).len() + w.quorum() <= w.cluster_size {
        assert forall|slot: u64| #[trigger] w.marked_anywhere(slot) implies less(
            w.cluster_size,
            w.lost_at(slot).len(),
        ) >= w.quorum() by {}
    }
    if verdict.clean_quorum {
        assert forall|slot: u64| #[trigger] w.marked_anywhere(slot) implies w.lost_at(slot).len()
            + w.quorum() <= w.cluster_size by {}
    }
}

/// Rot never thins below its standard rate where it is multiplied at all, and
/// never grows past one boot in two.
pub proof fn law_rot_rates_are_bounded(m: RotRates)
    requires
        m.entry >= 1 && m.lost_write >= 1 && m.misdirect >= 1 && m.snapshot >= 1 && m.promise >= 1
            && m.meta >= 1 && m.read_eio >= 1 && m.snap_chunk >= 1,
    ensures
        RotRates::at_multiples(m).capped(),
        m.entry == 1 ==> RotRates::at_multiples(m).entry == RotRates::standard().entry,
        m.promise == 2 ==> RotRates::at_multiples(m).promise == 2 * RotRates::standard().promise,
        m.meta >= 17 ==> RotRates::at_multiples(m).meta == 500,
{
    assert(60 * m.entry >= 60 && 40 * m.lost_write >= 40 && 40 * m.misdirect >= 40 && 50
        * m.snapshot >= 50 && 40 * m.promise >= 40 && 30 * m.meta >= 30 && 50 * m.read_eio >= 50
        && 50 * m.snap_chunk >= 50);
}

/// A cluster without a fault tolerates one: with three nodes or more, none marked,
/// truncated or down, any node may be parked and any record hit, and a write fault
/// is permitted unless it would leave its node no clean record at all.
pub proof fn law_clean_cluster_tolerates_a_fault(
    w: WorldView,
    key: u64,
    slot: u64,
    slots: Seq<u64>,
)
    requires
        w.cluster_size >= 3,
        w.parked == Set::<u64>::empty(),
        forall|k: u64, s: u64| !#[trigger] w.marked(k, s),
        forall|k: u64| #[trigger] w.disks.contains_key(k) ==> w.disks[k].first_slot == 0,
        w.marks.dom().finite(),
        w.disks.dom().finite(),
    ensures
        w.copies_without(key, slot) >= w.quorum(),
        w.may_corrupt_record(key, slot),
        w.may_park(key),
        w.permits(key, slots) <==> !(w.disks.contains_key(key) && (exists|s: u64| #[trigger]
            w.disks[key].accepted.contains_key(s)) && forall|s: u64| #[trigger]
            w.disks[key].accepted.contains_key(s) ==> slots.contains(s)),
{
    assert forall|s: u64| #[trigger] w.copies_without(key, s) >= w.quorum() by {
        assert(w.unclean(s) =~= Set::<u64>::empty()) by {
            assert forall|k: u64| !#[trigger] w.unclean(s).contains(k) by {
                assert(!w.marked(k, s));
                if w.disks.contains_key(k) {}
            }
        }
        assert(!w.marked(key, s));
    }
    assert forall|s: u64| !#[trigger] w.marked_anywhere(s) by {
        if w.marked_anywhere(s) {
            let k = choose|k: u64| #[trigger] w.marked(k, s);
            assert(!w.marked(k, s));
        }
    }
    let blanket = w.disks.contains_key(key) && (exists|s: u64| #[trigger]
        w.disks[key].accepted.contains_key(s)) && forall|s: u64| #[trigger]
        w.disks[key].accepted.contains_key(s) ==> slots.contains(s);
    assert(w.blankets(key, slots) == blanket) by {
        if w.blankets(key, slots) {
            assert forall|s: u64| #[trigger] w.disks[key].accepted.contains_key(
                s,
            ) implies slots.contains(s) by {
                assert(!w.marked(key, s));
            }
        }
    }
}

/// Once as many nodes are down as may be, no further one may be lost; losing one
/// that is down already costs nothing.
pub proof fn law_dead_budget_runs_out(w: WorldView, key: u64, node: u64)
    requires
        w.cluster_size > 0,
        w.parked.len() >= w.dead_budget(),
    ensures
        !w.parked.contains(key) ==> !w.may_park(key) && w.wipe(key, node) == w,
        w.parked.contains(key) ==> w.may_park(key),
{
}

/// A wipe that the budget allows takes the node down for good and is remembered as
/// a wipe; one that it does not changes nothing.
pub proof fn law_wipe_takes_its_node_down(w: WorldView, key: u64, node: u64)
    ensures
        ({
            let after = w.wipe(key, node);
            &&& w.may_park(key) ==> {
                &&& after.wiped == w.wiped.insert(key)
                &&& after.parked == w.parked.insert(key)
                &&& after.parked_ids == w.parked_ids.insert(node)
                &&& after.disks == w.disks && after.marks == w.marks && after.corruptions
                    == w.corruptions
            }
            &&& !w.may_park(key) ==> after == w
        }),
{
}

/// A permitted fault goes on the books as it was; a lost one marks the records it
/// suppressed, and a landed one marks none. A refused one leaves no trace.
pub proof fn law_permitted_fault_is_booked(
    w: WorldView,
    key: u64,
    fault: InjectedFault,
    slots: Seq<u64>,
    slot: u64,
)
    ensures
        ({
            let after = w.permit_and_record(key, fault, slots);
            &&& w.permits(key, slots) ==> {
                &&& after.injected == w.injected.push(fault)
                &&& after.marked(key, slot) <==> w.marked(key, slot) || (!fault.persisted
                    && slots.contains(slot))
                &&& after.disks == w.disks && after.parked == w.parked && after.corruptions
                    == w.corruptions
            }
            &&& !w.permits(key, slots) ==> after == w
        }),
{
    assert(slots.to_set().contains(slot) <==> slots.contains(slot));
}

/// A boot's rot is what its coins say: with none fallen nothing happens, and with
/// one fallen that one rot happens as drawn, and nothing else.
pub proof fn law_boot_rot_follows_its_coins(
    w: WorldView,
    key: u64,
    node: u64,
    coins: RotCoins,
    draws: RotDraws,
)
    ensures
        ({
            let after = w.boot_rot(key, node, coins, draws);
            let quiet = !coins.entry && !coins.lost_write && !coins.misdirect;
            let calm = !coins.promise && !coins.meta && !coins.snap_chunk && !coins.read_eio;
            &&& quiet && calm && !coins.snapshot ==> after == w
            &&& coins.entry && !coins.lost_write && !coins.misdirect && calm && !coins.snapshot
                ==> after == w.bit_flips(key, node, coins, draws)
            &&& !coins.entry && coins.lost_write && !coins.misdirect && calm && !coins.snapshot
                ==> after == w.lost_bytes(
                key,
                node,
                true,
                coins.lost_write_last,
                draws.lost_write_pick,
                RecordHealth::Lost,
                CorruptionKind::LostWrite,
            )
            &&& !coins.entry && !coins.lost_write && coins.misdirect && calm && !coins.snapshot
                ==> after == w.lost_bytes(
                key,
                node,
                true,
                coins.misdirect_last,
                draws.misdirect_pick,
                RecordHealth::Misdirected,
                CorruptionKind::Misdirected,
            )
            &&& quiet && calm && coins.snapshot ==> after == w.snapshot_rot(key, node, true)
            &&& quiet && !coins.snapshot && coins.promise && !coins.meta && !coins.snap_chunk
                && !coins.read_eio ==> after == w.promise_rot(
                key,
                node,
                true,
                coins.promise_both,
                coins.promise_second,
            )
            &&& quiet && !coins.snapshot && !coins.promise && coins.meta && !coins.snap_chunk
                && !coins.read_eio ==> after == w.store_fault(key, node, true, draws.meta_kind)
            &&& quiet && !coins.snapshot && !coins.promise && !coins.meta && coins.snap_chunk
                && !coins.read_eio ==> after == w.chunk_rot(
                key,
                node,
                true,
                draws.chunks,
                draws.chunk_first,
            )
            &&& quiet && !coins.snapshot && !coins.promise && !coins.meta && !coins.snap_chunk
                && coins.read_eio ==> after == w.read_rot(
                key,
                node,
                true,
                draws.read_kind,
                draws.read_pick,
            )
        }),
{
}

/// The chunk at `chunk` lies among the `n` from `first` on, round the point.
pub open spec fn in_run(first: int, n: nat, chunks: nat, chunk: int) -> bool {
    exists|k: int| 0 <= k < n && chunk == #[trigger] ((first + k) % chunks as int)
}

proof fn lemma_run_spares_the_rest(
    w: WorldView,
    key: u64,
    node: u64,
    at: u64,
    chunks: nat,
    first: int,
    n: nat,
    chunk: int,
)
    requires
        w.disks.contains_key(key),
        chunks > 0,
        0 <= chunk < chunks,
    ensures
        ({
            let after = w.rot_chunks(key, node, at, chunks, first, n);
            &&& after.disks.contains_key(key)
            &&& spares_others(w, after, key)
            &&& after.disks[key] == DiskView {
                snap_chunk_health: after.disks[key].snap_chunk_health,
                ..w.disks[key]
            }
            &&& !in_run(first, n, chunks, chunk) ==> after.disks[key].chunk_clean(chunk)
                == w.disks[key].chunk_clean(chunk)
            &&& !w.disks[key].chunk_clean(chunk) ==> !after.disks[key].chunk_clean(chunk)
            &&& after.unbudgeted == w.unbudgeted
            &&& w.unbudgeted && in_run(first, n, chunks, chunk) ==> !after.disks[key].chunk_clean(
                chunk,
            )
            &&& w.corruptions.len() <= after.corruptions.len() <= w.corruptions.len() + n
        }),
    decreases n,
{
    if n > 0 {
        let m = (n - 1) as nat;
        lemma_run_spares_the_rest(w, key, node, at, chunks, first, m, chunk);
        let mid = w.rot_chunks(key, node, at, chunks, first, m);
        let hit = (first + n - 1) % chunks as int;
        vstd::arithmetic::div_mod::lemma_mod_bound(first + n - 1, chunks as int);
        if chunk != hit {
            law_chunk_rot_is_budgeted(mid, key, node, at, chunks, hit, chunk);
        } else {
            law_chunk_rot_is_budgeted(mid, key, node, at, chunks, hit, chunk + 1);
            let k = n - 1;
            assert(chunk == (first + k) % chunks as int);
        }
        if in_run(first, m, chunks, chunk) {
            let k = choose|k: int| 0 <= k < m && chunk == #[trigger] ((first + k) % chunks as int);
            assert(0 <= k < n);
        }
        if in_run(first, n, chunks, chunk) && chunk != hit {
            let k = choose|k: int| 0 <= k < n && chunk == #[trigger] ((first + k) % chunks as int);
            assert(k < m);
        }
    }
}

/// Chunks rot in one run round the point, as many as drawn and never more than it
/// has, from the one drawn on: no chunk outside the run is touched, and without a
/// budget every chunk of the run is hit.
pub proof fn law_chunks_rot_in_a_run(
    w: WorldView,
    key: u64,
    node: u64,
    count: u64,
    first: u64,
    chunk: int,
)
    requires
        w.disks.contains_key(key),
        w.disks[key].snap_point is Some,
        0 <= chunk < chunks_of(w.disks[key].snap_point->0.state.blob.len(), w.chunk_bytes),
        first <= u32::MAX,
    ensures
        ({
            let d = w.disks[key];
            let chunks = chunks_of(d.snap_point->0.state.blob.len(), w.chunk_bytes);
            let n = if count <= chunks {
                count as nat
            } else {
                chunks
            };
            let after = w.chunk_rot(key, node, true, count, first);
            let hit = in_run(first as int % chunks as int, n, chunks, chunk);
            &&& !hit ==> after.disks[key].chunk_clean(chunk) == d.chunk_clean(chunk)
            &&& hit && w.unbudgeted ==> !after.disks[key].chunk_clean(chunk)
            &&& spares_others(w, after, key)
            &&& after.corruptions.len() <= w.corruptions.len() + n
            &&& w.chunk_rot(key, node, false, count, first) == w
        }),
{
    let d = w.disks[key];
    let chunks = chunks_of(d.snap_point->0.state.blob.len(), w.chunk_bytes);
    let n = if count <= chunks {
        count as nat
    } else {
        chunks
    };
    lemma_run_spares_the_rest(
        w,
        key,
        node,
        d.snap_point->0.at,
        chunks,
        first as int % chunks as int,
        n,
        chunk,
    );
}

/// A node that is up retains the point at `at` and reads this chunk of it clean.
pub open spec fn clean_chunk_of(w: WorldView, key: u64, at: u64, chunk: int) -> bool {
    &&& w.disks.contains_key(key)
    &&& !w.parked.contains(key)
    &&& w.disks[key].snap_point is Some
    &&& w.disks[key].snap_point->0.at == at
    &&& 0 <= chunk < w.disks[key].snap_chunk_health.len() ==> w.disks[key].snap_chunk_health[chunk]
        == RecordHealth::Clean
}

/// Some such node exists.
pub open spec fn has_clean_chunk(w: WorldView, at: u64, chunk: int) -> bool {
    exists|key: u64| #[trigger] clean_chunk_of(w, key, at, chunk)
}

/// A point is put together from any clean chunks of live nodes: where every chunk of
/// it has one, no slot it covers is lost; and where some chunk has none, the point
/// gives nothing back.
pub proof fn law_point_is_put_together_from_clean_chunks(w: WorldView, at: u64, slot: u64)
    requires
        slot <= at,
        exists|key: u64| #[trigger] w.live_disk(key) && w.disks[key].has_point(at),
    ensures
        (forall|chunk: int|
            0 <= chunk < w.point_chunks(at) ==> #[trigger] has_clean_chunk(w, at, chunk))
            ==> !w.slot_unrecoverable(slot),
        (exists|chunk: int|
            0 <= chunk < w.point_chunks(at) && !#[trigger] has_clean_chunk(w, at, chunk))
            ==> !w.assemblable(at),
{
    assert forall|chunk: int| #[trigger] has_clean_chunk(w, at, chunk) == w.chunk_served(
        at,
        chunk,
    ) by {
        if has_clean_chunk(w, at, chunk) {
            let key = choose|key: u64| #[trigger] clean_chunk_of(w, key, at, chunk);
            assert(w.live_clean_chunk(key, at, chunk));
        }
        if w.chunk_served(at, chunk) {
            let key = choose|key: u64| #[trigger] w.live_clean_chunk(key, at, chunk);
            assert(clean_chunk_of(w, key, at, chunk));
        }
    }
    if forall|chunk: int|
        0 <= chunk < w.point_chunks(at) ==> #[trigger] has_clean_chunk(w, at, chunk) {
        assert forall|chunk: int| 0 <= chunk < w.point_chunks(at) implies #[trigger] w.chunk_served(
            at,
            chunk,
        ) by {
            assert(has_clean_chunk(w, at, chunk));
        }
        assert(w.assemblable(at));
    }
    if exists|chunk: int|
        0 <= chunk < w.point_chunks(at) && !#[trigger] has_clean_chunk(w, at, chunk) {
        let chunk = choose|chunk: int|
            0 <= chunk < w.point_chunks(at) && !#[trigger] has_clean_chunk(w, at, chunk);
        assert(!w.chunk_served(at, chunk));
    }
}

} // verus!
