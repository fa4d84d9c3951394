//! World-truth probes and targeted injections for the scripted cases: what a
//! node's disk holds, and the corruption of exactly one named record.
//!
//! These injections are deliberately unbudgeted: the world records which slots
//! they left without a readable copy.
use crate::disk::{DiskView, RecordHealth, SlotHealth, padded_chunks};
use crate::flush::{chunk_name, rotted_chunks};
use crate::ledger::rotten;
use crate::ordered::OrdSet;
use crate::records::{StorageRecord, WitnessStatus, chunks_of};
use crate::rot::injection;
use crate::world::{
    CorruptionInjection, CorruptionKind, CorruptionOutcome, StorageWorld, WorldView, below, just,
};
use vstd::prelude::*;

verus! {

/// One node's durable evidence.
pub struct CorpusDiskProbe {
    /// Retained accepted slots whose record reads back clean and witnessed.
    pub clean_slots: OrdSet<u64>,
    pub floor: u64,
    pub applied_count: u64,
    pub chain_hash: u64,
    /// The slot of the retained snapshot point, if any.
    pub snap_point: Option<u64>,
    /// The rotted chunks of that point.
    pub faulty_chunks: OrdSet<u32>,
}

/// The probe tells what the disk holds.
pub open spec fn probes(probe: CorpusDiskProbe, d: DiskView) -> bool {
    &&& probe.clean_slots@ == d.clean_slots()
    &&& probe.floor == d.first_slot
    &&& probe.applied_count == d.chain.applied_count
    &&& probe.chain_hash == d.chain.chain_hash
    &&& probe.snap_point == match d.snap_point {
        Some(point) => Some(point.at),
        None => None,
    }
    &&& forall|chunk: u32| #[trigger]
        probe.faulty_chunks@.contains(chunk) <==> d.rotted_chunk(chunk)
}

impl DiskView {
    /// Some chunk of that name is unclean.
    pub open spec fn rotted_chunk(self, chunk: u32) -> bool {
        exists|i: int|
            0 <= i < self.snap_chunk_health.len() && #[trigger] self.snap_chunk_health[i]
                != RecordHealth::Clean && chunk == chunk_name(i)
    }
}

impl WorldView {
    /// `key` holds a clean record at `slot` to corrupt.
    pub open spec fn entry_corruptible(self, key: u64, slot: u64) -> bool {
        self.disks.contains_key(key) && self.disks[key].holds_clean(slot)
    }

    /// One accepted record's value lost, its identity preserved.
    pub open spec fn corrupt_entry(self, key: u64, node: u64, slot: u64) -> WorldView {
        if !self.entry_corruptible(key, slot) {
            self
        } else {
            self.with_disk(
                key,
                rotten(self.disks[key], StorageRecord::Accepted(slot)),
            ).mark(key, set![slot]).note_corruption(
                injection(node, StorageRecord::Accepted(slot), CorruptionKind::BitFlip, false),
            ).note_unrecoverable(just(slot))
        }
    }

    /// One node's durable application snapshot lost. The slots it had truncated
    /// past lose their local custody.
    pub open spec fn corrupt_snapshot(self, key: u64, node: u64) -> WorldView {
        if !self.disks.contains_key(key) {
            self
        } else {
            self.with_disk(key, rotten(self.disks[key], StorageRecord::Snapshot)).note_corruption(
                injection(node, StorageRecord::Snapshot, CorruptionKind::BitFlip, false),
            ).note_unrecoverable(below(self.disks[key].first_slot))
        }
    }

    /// `chunk` is a chunk of the point `key` retains.
    pub open spec fn chunk_in_point(self, key: u64, chunk: u32) -> bool {
        &&& self.disks.contains_key(key)
        &&& self.disks[key].snap_point is Some
        &&& chunk < chunks_of(self.disks[key].snap_point->0.state.blob.len(), self.chunk_bytes)
    }

    /// It is, and clean.
    pub open spec fn chunk_corruptible(self, key: u64, chunk: u32) -> bool {
        self.chunk_in_point(key, chunk) && self.disks[key].chunk_clean(chunk as int)
    }

    /// The disk with every chunk of its point listed.
    pub open spec fn listed_chunks(self, key: u64) -> DiskView {
        let d = self.disks[key];
        DiskView {
            snap_chunk_health: padded_chunks(
                d.snap_chunk_health,
                chunks_of(d.snap_point->0.state.blob.len(), self.chunk_bytes),
            ),
            ..d
        }
    }

    /// One chunk of the retained point lost, the point's identity and every
    /// other chunk intact.
    pub open spec fn corrupt_snap_chunk(self, key: u64, node: u64, chunk: u32) -> WorldView {
        let listed = self.listed_chunks(key);
        if !self.chunk_in_point(key, chunk) {
            self
        } else if !self.chunk_corruptible(key, chunk) {
            self.with_disk(key, listed)
        } else {
            self.with_disk(
                key,
                DiskView {
                    snap_chunk_health: listed.snap_chunk_health.update(
                        chunk as int,
                        RecordHealth::Faulty,
                    ),
                    ..listed
                },
            ).note_corruption(
                injection(
                    node,
                    StorageRecord::SnapChunk(listed.snap_point->0.at, chunk),
                    CorruptionKind::BitFlip,
                    false,
                ),
            ).note_unrecoverable(below(listed.first_slot))
        }
    }
}

impl StorageWorld {
    /// What the disk under `key` holds.
    pub fn corpus_disk_probe(&self, key: u64) -> (probe: Option<CorpusDiskProbe>)
        ensures
            match probe {
                Some(probe) => self@.disks.contains_key(key) && probes(probe, self@.disks[key]),
                None => !self@.disks.contains_key(key),
            },
    {
        match self.disks.get(key) {
            Some(disk) => {
                let names = rotted_chunks(&disk.snap_chunk_health);
                let mut faulty_chunks: OrdSet<u32> = OrdSet::new();
                let mut i: usize = 0;
                while i < names.len()
                    invariant
                        i <= names@.len(),
                        forall|chunk: u32| #[trigger]
                            faulty_chunks@.contains(chunk) <==> names@.take(i as int).contains(
                                chunk,
                            ),
                    decreases names@.len() - i,
                {
                    faulty_chunks.insert(names[i]);
                    proof {
                        assert forall|chunk: u32| names@.take(i + 1).contains(chunk)
                            <==> names@.take(i as int).contains(chunk) || chunk
                            == names@[i as int] by {
                            crate::flush::lemma_take_contains(names@, i as int, chunk);
                        }
                    }
                    i = i + 1;
                }
                assert(names@.take(i as int) =~= names@);
                let probe = CorpusDiskProbe {
                    clean_slots: disk.clean_slots(),
                    floor: disk.first_slot,
                    applied_count: disk.chain.applied_count,
                    chain_hash: disk.chain.chain_hash,
                    snap_point: match &disk.snap_point {
                        Some(point) => Some(point.at),
                        None => None,
                    },
                    faulty_chunks,
                };
                assert forall|chunk: u32| #[trigger]
                    probe.faulty_chunks@.contains(chunk) <==> self@.disks[key].rotted_chunk(
                        chunk,
                    ) by {
                    assert(names@.contains(chunk) <==> exists|i: int|
                        0 <= i < disk.snap_chunk_health@.len()
                            && #[trigger] disk.snap_chunk_health@[i] != RecordHealth::Clean
                            && chunk == chunk_name(i));
                }
                Some(probe)
            },
            None => None,
        }
    }

    /// Corrupt one accepted record: value lost, identity preserved. Whether
    /// there was a clean record to corrupt.
    pub fn corpus_corrupt_entry(&mut self, key: u64, node: u64, slot: u64) -> (landed: bool)
        ensures
            landed == old(self)@.entry_corruptible(key, slot),
            final(self)@ == old(self)@.corrupt_entry(key, node, slot),
    {
        let clean = match self.disks.get(key) {
            Some(disk) => disk.holds_clean(slot),
            None => false,
        };
        if !clean {
            return false;
        }
        let ghost w = self@;
        let mut disk = self.take_disk(key);
        disk.entry_health.insert(
            slot,
            SlotHealth { entry: RecordHealth::Faulty, id: WitnessStatus::Present },
        );
        let ghost after = disk@;
        self.put_disk(key, disk);
        assert(self@.disks =~= w.with_disk(key, after).disks);
        self.mark_slot(key, slot);
        self.note_corruption(
            CorruptionInjection {
                node,
                record: StorageRecord::Accepted(slot),
                kind: CorruptionKind::BitFlip,
                block: false,
                outcome: CorruptionOutcome::Dormant,
            },
        );
        self.note_if_unrecoverable(slot);
        true
    }

    /// Corrupt one node's durable application snapshot. Whether it has a disk.
    pub fn corpus_corrupt_snapshot(&mut self, key: u64, node: u64) -> (landed: bool)
        ensures
            landed == old(self)@.disks.contains_key(key),
            final(self)@ == old(self)@.corrupt_snapshot(key, node),
    {
        if !self.disks.contains(key) {
            return false;
        }
        let ghost w = self@;
        let mut disk = self.take_disk(key);
        disk.snapshot_health = RecordHealth::Faulty;
        let floor = disk.first_slot;
        let ghost after = disk@;
        self.put_disk(key, disk);
        assert(self@.disks =~= w.with_disk(key, after).disks);
        self.note_corruption(
            CorruptionInjection {
                node,
                record: StorageRecord::Snapshot,
                kind: CorruptionKind::BitFlip,
                block: false,
                outcome: CorruptionOutcome::Dormant,
            },
        );
        self.note_folded_prefix(floor);
        true
    }

    /// Corrupt one chunk of the retained snapshot point. Whether there was a
    /// clean chunk to corrupt.
    pub fn corpus_corrupt_snap_chunk(&mut self, key: u64, node: u64, chunk: u32) -> (landed: bool)
        ensures
            landed == old(self)@.chunk_corruptible(key, chunk),
            final(self)@ == old(self)@.corrupt_snap_chunk(key, node, chunk),
    {
        let (at, len) = match self.disks.get(key) {
            Some(disk) => match &disk.snap_point {
                Some(point) => (point.at, point.state.blob.len()),
                None => {
                    return false;
                },
            },
            None => {
                return false;
            },
        };
        let chunks = self.chunk_size.snap_chunk_count(len);
        if chunk as u64 >= chunks as u64 {
            return false;
        }
        let index = chunk as usize;
        let ghost w = self@;
        let mut disk = self.take_disk(key);
        let ghost d0 = disk@;
        let clean = disk.chunk_clean(index);
        disk.pad_chunks(chunks);
        let floor = disk.first_slot;
        if !clean {
            let ghost after = disk@;
            self.put_disk(key, disk);
            assert(self@.disks =~= w.with_disk(key, after).disks);
            return false;
        }
        disk.set_chunk(index, chunks, RecordHealth::Faulty);
        let ghost after = disk@;
        assert(after.snap_chunk_health =~= padded_chunks(
            d0.snap_chunk_health,
            chunks as nat,
        ).update(chunk as int, RecordHealth::Faulty));
        self.put_disk(key, disk);
        assert(self@.disks =~= w.with_disk(key, after).disks);
        self.note_corruption(
            CorruptionInjection {
                node,
                record: StorageRecord::SnapChunk(at, chunk),
                kind: CorruptionKind::BitFlip,
                block: false,
                outcome: CorruptionOutcome::Dormant,
            },
        );
        self.note_folded_prefix(floor);
        true
    }

    /// Slots an unbudgeted run drove to zero readable copies.
    pub fn unrecoverable_slots(&self) -> (slots: OrdSet<u64>)
        ensures
            slots@ == self@.unrecoverable,
    {
        self.unrecoverable.copied()
    }

    /// The nodes terminally parked by a detected persistent corruption.
    pub fn parked_nodes(&self) -> (nodes: OrdSet<u64>)
        ensures
            nodes@ == self@.parked,
    {
        self.parked.copied()
    }

    /// Bump `key`'s restart epoch: its live incarnation is dropped, a clean
    /// crash, and restored from the world.
    pub fn corpus_restart_node(&mut self, key: u64)
        requires
            old(self)@.epoch(key) < u64::MAX,
        ensures
            final(self)@ == old(self)@.restarted(key),
    {
        let epoch = self.restart_epoch(key);
        self.restart_epochs.insert(key, epoch + 1);
    }

    /// The restart epoch of `key`: zero until first bumped.
    pub fn restart_epoch(&self, key: u64) -> (epoch: u64)
        ensures
            epoch == self@.epoch(key),
    {
        match self.restart_epochs.get(key) {
            Some(epoch) => *epoch,
            None => 0,
        }
    }

    /// Hold `key` down: drop its live incarnation and keep it down until
    /// released.
    pub fn corpus_hold_node(&mut self, key: u64)
        requires
            old(self)@.epoch(key) < u64::MAX,
        ensures
            final(self)@ == old(self)@.hold(key),
    {
        self.held.insert(key);
        self.corpus_restart_node(key);
    }

    /// Release a held node: it restores from the world at its next pass.
    pub fn corpus_release_node(&mut self, key: u64)
        ensures
            final(self)@ == old(self)@.release(key),
    {
        self.held.remove(key);
    }

    /// Whether `key` is held down.
    pub fn is_held(&self, key: u64) -> (held: bool)
        ensures
            held == self@.held.contains(key),
    {
        self.held.contains(key)
    }
}

impl WorldView {
    /// A restart of `key` is asked for.
    pub open spec fn restarted(self, key: u64) -> WorldView {
        WorldView {
            restart_epochs: self.restart_epochs.insert(key, (self.epoch(key) + 1) as u64),
            ..self
        }
    }

    /// `key` is dropped and held down.
    pub open spec fn hold(self, key: u64) -> WorldView {
        WorldView { held: self.held.insert(key), ..self.restarted(key) }
    }

    pub open spec fn release(self, key: u64) -> WorldView {
        WorldView { held: self.held.remove(key), ..self }
    }

    pub open spec fn epoch(self, key: u64) -> u64 {
        if self.restart_epochs.contains_key(key) {
            self.restart_epochs[key]
        } else {
            0
        }
    }
}

/// A live node whose clean snapshot covers everything below `floor`.
pub open spec fn covers(w: WorldView, key: u64, floor: u64) -> bool {
    w.live_disk(key) && w.disks[key].first_slot >= floor && w.disks[key].snapshot_health
        == RecordHealth::Clean
}

/// Rotting a chunk never strands a slot while the live application states are
/// custody: if some live node's clean snapshot covers the floor, the ground
/// truth gains nothing.
pub proof fn law_chunk_rot_strands_nothing(w: WorldView, key: u64, node: u64, chunk: u32, custodian: u64)
    requires
        w.disks.contains_key(key),
        covers(w, custodian, w.disks[key].first_slot),
    ensures
        w.corrupt_snap_chunk(key, node, chunk).unrecoverable == w.unrecoverable,
        covers(w.corrupt_snap_chunk(key, node, chunk), custodian, w.disks[key].first_slot),
{
    let after = w.corrupt_snap_chunk(key, node, chunk);
    if w.chunk_corruptible(key, chunk) {
        let listed = w.listed_chunks(key);
        let rotted = w.with_disk(
            key,
            DiskView {
                snap_chunk_health: listed.snap_chunk_health.update(
                    chunk as int,
                    RecordHealth::Faulty,
                ),
                ..listed
            },
        ).note_corruption(
            injection(
                node,
                StorageRecord::SnapChunk(listed.snap_point->0.at, chunk),
                CorruptionKind::BitFlip,
                false,
            ),
        );
        assert forall|slot: u64| slot < listed.first_slot implies !rotted.slot_unrecoverable(
            slot,
        ) by {
            assert(rotted.serves(custodian, slot));
        }
        assert(after.unrecoverable =~= w.unrecoverable);
    }
}

/// Rotting one node's snapshot strands nothing while another live node's clean
/// snapshot covers its floor.
pub proof fn law_snapshot_rot_needs_last_custodian(
    w: WorldView,
    key: u64,
    node: u64,
    custodian: u64,
)
    requires
        w.disks.contains_key(key),
        custodian != key,
        covers(w, custodian, w.disks[key].first_slot),
    ensures
        w.corrupt_snapshot(key, node).unrecoverable == w.unrecoverable,
{
    let after = w.corrupt_snapshot(key, node);
    let rotted = w.with_disk(key, rotten(w.disks[key], StorageRecord::Snapshot)).note_corruption(
        injection(node, StorageRecord::Snapshot, CorruptionKind::BitFlip, false),
    );
    assert forall|slot: u64| slot < w.disks[key].first_slot implies !rotted.slot_unrecoverable(
        slot,
    ) by {
        assert(rotted.serves(custodian, slot));
    }
    assert(after.unrecoverable =~= w.unrecoverable);
}

} // verus!
