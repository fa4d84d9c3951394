//! Boot rot: latent faults that surfaced while a node was down, injected at the
//! boot that immediately reads them back.
//!
//! Each fault family fires on its own coin, and every one is budgeted: a
//! recoverable family must leave the record a clean quorum, a family that
//! crashes the node for good must be inside the dead-node budget.
use crate::disk::{DiskView, RecordHealth, SlotHealth};
use crate::draws::{knob, sim_draw};
use crate::faults::StorageFaults;
use crate::flush::chunk_name;
use crate::ordered::{OrdSet, ascending, lemma_lists_filter, lemma_walk, lists, walked};
use crate::records::{MetadataFault, StorageRecord, WitnessStatus, chunks_of};
use crate::storage::{DurableStorage, StorageView};
use crate::world::{
    CorruptionInjection, CorruptionKind, CorruptionOutcome, StorageWorld, WorldView, below, just,
    less,
};
use vstd::prelude::*;

verus! {

/// Per-boot firing rates of the rot families, in thousandths. The defaults are
/// multiplied by one knob per family and capped, so a boot can never rot every
/// candidate record.
#[derive(Clone, Copy, Debug, PartialEq, Eq, Structural)]
pub struct RotRates {
    pub entry: u64,
    pub lost_write: u64,
    pub misdirect: u64,
    pub snapshot: u64,
    pub promise: u64,
    pub meta: u64,
    pub read_eio: u64,
    pub snap_chunk: u64,
}

/// One rate at `multiplier` times its base, capped at one half.
pub open spec fn densified(base: u64, multiplier: u64) -> u64 {
    if base * multiplier <= 500 {
        (base * multiplier) as u64
    } else {
        500
    }
}

fn dense(base: u64, multiplier: u64) -> (rate: u64)
    ensures
        rate == densified(base, multiplier),
{
    match base.checked_mul(multiplier) {
        Some(rate) => if rate <= 500 {
            rate
        } else {
            500
        },
        None => 500,
    }
}

impl RotRates {
    pub open spec fn standard() -> RotRates {
        RotRates {
            entry: 60,
            lost_write: 40,
            misdirect: 40,
            snapshot: 50,
            promise: 40,
            meta: 30,
            read_eio: 50,
            snap_chunk: 50,
        }
    }

    /// Each family at its own multiple of its default.
    pub open spec fn at_multiples(m: RotRates) -> RotRates {
        let base = RotRates::standard();
        RotRates {
            entry: densified(base.entry, m.entry),
            lost_write: densified(base.lost_write, m.lost_write),
            misdirect: densified(base.misdirect, m.misdirect),
            snapshot: densified(base.snapshot, m.snapshot),
            promise: densified(base.promise, m.promise),
            meta: densified(base.meta, m.meta),
            read_eio: densified(base.read_eio, m.read_eio),
            snap_chunk: densified(base.snap_chunk, m.snap_chunk),
        }
    }

    /// Every family's rate is its default or at most one half.
    pub open spec fn capped(self) -> bool {
        &&& 60 <= self.entry <= 500
        &&& 40 <= self.lost_write <= 500
        &&& 40 <= self.misdirect <= 500
        &&& 50 <= self.snapshot <= 500
        &&& 40 <= self.promise <= 500
        &&& 30 <= self.meta <= 500
        &&& 50 <= self.read_eio <= 500
        &&& 50 <= self.snap_chunk <= 500
    }

    /// The rates at given multipliers.
    pub fn from_multipliers(m: RotRates) -> (rates: RotRates)
        ensures
            rates == RotRates::at_multiples(m),
    {
        RotRates {
            entry: dense(60, m.entry),
            lost_write: dense(40, m.lost_write),
            misdirect: dense(40, m.misdirect),
            snapshot: dense(50, m.snapshot),
            promise: dense(40, m.promise),
            meta: dense(30, m.meta),
            read_eio: dense(50, m.read_eio),
            snap_chunk: dense(50, m.snap_chunk),
        }
    }

    /// One boot's rates: an independent multiplier per family.
    pub fn for_boot() -> (rates: RotRates)
        ensures
            rates.capped(),
    {
        RotRates::from_multipliers(
            RotRates {
                entry: knob(1, 2, 6, "boot rot: entry density"),
                lost_write: knob(1, 2, 6, "boot rot: lost write density"),
                misdirect: knob(1, 2, 6, "boot rot: misdirected write density"),
                snapshot: knob(1, 2, 6, "boot rot: snapshot density"),
                promise: knob(1, 2, 6, "boot rot: promise density"),
                meta: knob(1, 2, 6, "boot rot: metadata density"),
                read_eio: knob(1, 2, 6, "boot rot: read error density"),
                snap_chunk: knob(1, 2, 6, "boot rot: snapshot chunk density"),
            },
        )
    }

    /// Whether any family drew above its default.
    pub fn any_dense(self) -> (dense: bool)
        ensures
            dense == {
                let base = RotRates::standard();
                self.entry > base.entry || self.lost_write > base.lost_write || self.misdirect
                    > base.misdirect || self.snapshot > base.snapshot || self.promise
                    > base.promise || self.meta > base.meta || self.read_eio > base.read_eio
                    || self.snap_chunk > base.snap_chunk
            },
    {
        self.entry > 60 || self.lost_write > 40 || self.misdirect > 40 || self.snapshot > 50
            || self.promise > 40 || self.meta > 30 || self.read_eio > 50 || self.snap_chunk > 50
    }
}

/// The coins of one boot's rot.
#[derive(Clone, Copy, Debug, PartialEq, Eq, Structural)]
pub struct RotCoins {
    pub entry: bool,
    /// Take the last permitted slot rather than a drawn one.
    pub entry_last: bool,
    /// The identifier rots with its entry.
    pub entry_id: bool,
    /// A contiguous block rots, not one record.
    pub entry_block: bool,
    pub lost_write: bool,
    pub lost_write_last: bool,
    pub misdirect: bool,
    pub misdirect_last: bool,
    pub snapshot: bool,
    pub promise: bool,
    /// Both hard-state copies.
    pub promise_both: bool,
    /// The second copy rather than the first.
    pub promise_second: bool,
    pub meta: bool,
    pub snap_chunk: bool,
    pub read_eio: bool,
}

/// The integer draws of one boot's rot.
#[derive(Clone, Copy, Debug, PartialEq, Eq, Structural)]
pub struct RotDraws {
    pub entry_pick: u64,
    /// How many records a block fault spans at most.
    pub entry_width: u64,
    pub lost_write_pick: u64,
    pub misdirect_pick: u64,
    pub meta_kind: u64,
    /// How many chunks rot at once.
    pub chunks: u64,
    pub chunk_first: u64,
    pub read_kind: u64,
    pub read_pick: u64,
}

impl RotDraws {
    pub open spec fn in_range(self) -> bool {
        2 <= self.entry_width < 9 && 1 <= self.chunks < 17
    }

    pub fn draw() -> (draws: RotDraws)
        ensures
            draws.in_range(),
    {
        RotDraws {
            entry_pick: sim_draw(),
            entry_width: knob(3, 2, 9, "boot rot: block width"),
            lost_write_pick: sim_draw(),
            misdirect_pick: sim_draw(),
            meta_kind: sim_draw(),
            chunks: knob(1, 1, 17, "boot rot: chunks at once"),
            chunk_first: sim_draw(),
            read_kind: sim_draw(),
            read_pick: sim_draw(),
        }
    }
}

/// A dormant injection.
pub open spec fn injection(
    node: u64,
    record: StorageRecord,
    kind: CorruptionKind,
    block: bool,
) -> CorruptionInjection {
    CorruptionInjection { node, record, kind, block, outcome: CorruptionOutcome::Dormant }
}

/// The last of a list, or a drawn one.
pub open spec fn picked(slots: Seq<u64>, last: bool, draw: u64) -> u64 {
    if last {
        slots.last()
    } else {
        slots[draw as int % slots.len() as int]
    }
}

/// The chunk a draw starts at; a draw too wide for a chunk index starts at the
/// first.
pub open spec fn first_chunk(draw: u64, chunks: nat) -> int {
    if draw <= u32::MAX {
        draw as int % chunks as int
    } else {
        0
    }
}

impl WorldView {
    /// The clean records of `key` that the per-record budget lets rot.
    pub open spec fn rot_targets(self, key: u64) -> Seq<u64> {
        if self.disks.contains_key(key) {
            ascending(
                self.disks[key].clean_slots().filter(
                    |slot: u64| self.may_corrupt_record(key, slot),
                ),
            )
        } else {
            Seq::empty()
        }
    }

    /// One accepted record of `key` takes `health`, marked and on the ledger.
    pub open spec fn rot_entry(
        self,
        key: u64,
        node: u64,
        slot: u64,
        health: SlotHealth,
        kind: CorruptionKind,
        block: bool,
    ) -> WorldView {
        self.mend_disk(
            key,
            DiskView {
                entry_health: self.disks[key].entry_health.insert(slot, health),
                ..self.disks[key]
            },
        ).mark(key, set![slot]).note_corruption(
            injection(node, StorageRecord::Accepted(slot), kind, block),
        ).note_unrecoverable(just(slot))
    }

    /// The records of a block fault rot one after the other; the primary's
    /// identifier may rot with it.
    pub open spec fn rot_block(
        self,
        key: u64,
        node: u64,
        slots: Seq<u64>,
        primary: u64,
        id_faulty: bool,
        block: bool,
    ) -> WorldView
        decreases slots.len(),
    {
        if slots.len() == 0 {
            self
        } else {
            self.rot_block(key, node, slots.drop_last(), primary, id_faulty, block).rot_entry(
                key,
                node,
                slots.last(),
                SlotHealth {
                    entry: RecordHealth::Faulty,
                    id: if slots.last() == primary && id_faulty {
                        WitnessStatus::Faulty
                    } else {
                        WitnessStatus::Present
                    },
                },
                CorruptionKind::BitFlip,
                block,
            )
        }
    }

    /// The members of a block fault at `primary`: the permitted records among
    /// the `width` slots that end there.
    pub open spec fn block_members(self, key: u64, primary: u64, width: u64) -> Seq<u64> {
        self.rot_targets(key).filter(
            |slot: u64| slot + width > primary && slot <= primary,
        )
    }

    /// Bit flips. A record whose identity survives is recoverable; one whose
    /// identifier rots too takes its node down.
    pub open spec fn bit_flips(
        self,
        key: u64,
        node: u64,
        coins: RotCoins,
        draws: RotDraws,
    ) -> WorldView {
        let targets = self.rot_targets(key);
        if !coins.entry || targets.len() == 0 {
            self
        } else {
            let primary = picked(targets, coins.entry_last, draws.entry_pick);
            let id_faulty = coins.entry_id && self.may_park(key);
            let members = if coins.entry_block {
                self.block_members(key, primary, draws.entry_width)
            } else {
                seq![primary]
            };
            let rotted = self.rot_block(key, node, members, primary, id_faulty, members.len() > 1);
            if id_faulty {
                rotted.park(key, node)
            } else {
                rotted
            }
        }
    }

    /// A lost or misdirected write: identity known, so recoverable.
    pub open spec fn lost_bytes(
        self,
        key: u64,
        node: u64,
        fires: bool,
        last: bool,
        pick: u64,
        health: RecordHealth,
        kind: CorruptionKind,
    ) -> WorldView {
        let targets = self.rot_targets(key);
        if !fires || targets.len() == 0 {
            self
        } else {
            self.rot_entry(
                key,
                node,
                picked(targets, last, pick),
                SlotHealth { entry: health, id: WitnessStatus::Present },
                kind,
                false,
            )
        }
    }

    /// A snapshot that has folded something, and that someone could restore.
    pub open spec fn may_rot_snapshot(self, key: u64) -> bool {
        self.disks.contains_key(key) && self.disks[key].chain.applied_count > 0 && (self.unbudgeted
            || self.cluster_size > 1 || self.disks[key].first_slot == 0)
    }

    pub open spec fn snapshot_rot(self, key: u64, node: u64, fires: bool) -> WorldView {
        if !fires || !self.may_rot_snapshot(key) {
            self
        } else {
            let floor = self.disks[key].first_slot;
            self.with_disk(
                key,
                DiskView { snapshot_health: RecordHealth::Faulty, ..self.disks[key] },
            ).note_corruption(
                injection(node, StorageRecord::Snapshot, CorruptionKind::BitFlip, false),
            ).note_unrecoverable(below(floor))
        }
    }

    /// Hard-state copies: usually one, repaired from its twin; rarely both,
    /// which takes the node down. A single-copy rot never completes the pair.
    pub open spec fn promise_rot(
        self,
        key: u64,
        node: u64,
        fires: bool,
        both: bool,
        second: bool,
    ) -> WorldView {
        let record = injection(node, StorageRecord::Promise, CorruptionKind::PromiseCopy, false);
        if !fires || !self.disks.contains_key(key) {
            self
        } else if both {
            if self.may_park(key) {
                self.with_disk(
                    key,
                    DiskView {
                        promise_health: (RecordHealth::Faulty, RecordHealth::Faulty),
                        ..self.disks[key]
                    },
                ).park(key, node).note_corruption(record).note_corruption(record)
            } else {
                self
            }
        } else {
            let health = self.disks[key].promise_health;
            let twin = if second {
                health.0
            } else {
                health.1
            };
            if twin == RecordHealth::Clean {
                self.with_disk(
                    key,
                    DiskView {
                        promise_health: if second {
                            (health.0, RecordHealth::Faulty)
                        } else {
                            (RecordHealth::Faulty, health.1)
                        },
                        ..self.disks[key]
                    },
                ).note_corruption(record)
            } else {
                self
            }
        }
    }

    /// A fault of the whole store: the node never recovers from it.
    pub open spec fn store_fault(self, key: u64, node: u64, fires: bool, kind: u64) -> WorldView {
        if fires && self.disks.contains_key(key) && self.may_park(key) {
            let fault = if kind % 3 == 0 {
                MetadataFault::Missing
            } else if kind % 3 == 1 {
                MetadataFault::WrongSize
            } else {
                MetadataFault::ReadOnly
            };
            self.with_disk(key, DiskView { meta_fault: Some(fault), ..self.disks[key] }).park(
                key,
                node,
            ).note_corruption(
                injection(node, StorageRecord::Store, CorruptionKind::Metadata, false),
            )
        } else {
            self
        }
    }

    /// The live nodes holding a clean copy of one chunk of a point.
    pub open spec fn chunk_copies(self, at: u64, chunk: int) -> nat {
        self.disks.dom().filter(|k: u64| self.live_clean_chunk(k, at, chunk)).len()
    }

    /// One chunk of the point `key` retains rots, if the chunk keeps a clean
    /// quorum elsewhere.
    pub open spec fn rot_chunk(
        self,
        key: u64,
        node: u64,
        at: u64,
        chunks: nat,
        chunk: int,
    ) -> WorldView {
        let disk = self.disks[key];
        if self.disks.contains_key(key) && disk.chunk_clean(chunk) && (self.unbudgeted || less(
            self.chunk_copies(at, chunk),
            1,
        ) >= self.quorum()) {
            self.with_disk(
                key,
                DiskView {
                    snap_chunk_health: disk.chunk_list(chunk, chunks).update(
                        chunk,
                        RecordHealth::Faulty,
                    ),
                    ..disk
                },
            ).note_corruption(
                injection(
                    node,
                    StorageRecord::SnapChunk(at, chunk_name(chunk)),
                    CorruptionKind::BitFlip,
                    false,
                ),
            ).note_unrecoverable(below(disk.first_slot))
        } else {
            self
        }
    }

    /// `n` consecutive chunks from `first` on, wrapping around.
    pub open spec fn rot_chunks(
        self,
        key: u64,
        node: u64,
        at: u64,
        chunks: nat,
        first: int,
        n: nat,
    ) -> WorldView
        decreases n,
    {
        if n == 0 {
            self
        } else {
            self.rot_chunks(key, node, at, chunks, first, (n - 1) as nat).rot_chunk(
                key,
                node,
                at,
                chunks,
                (first + n - 1) % chunks as int,
            )
        }
    }

    /// Chunk rot on the retained decided snapshot point.
    pub open spec fn chunk_rot(
        self,
        key: u64,
        node: u64,
        fires: bool,
        count: u64,
        first: u64,
    ) -> WorldView {
        if !fires || !self.disks.contains_key(key) || self.disks[key].snap_point is None {
            self
        } else {
            let point = self.disks[key].snap_point->0;
            let chunks = chunks_of(point.state.blob.len(), self.chunk_bytes);
            if chunks == 0 {
                self
            } else {
                self.rot_chunks(
                    key,
                    node,
                    point.at,
                    chunks,
                    first_chunk(first, chunks),
                    if count <= chunks {
                        count as nat
                    } else {
                        chunks
                    },
                )
            }
        }
    }

    /// The record a transient read error hits.
    pub open spec fn read_target(self, key: u64, kind: u64, pick: u64) -> StorageRecord {
        let slots = ascending(self.disks[key].accepted.dom());
        if kind % 5 == 0 {
            StorageRecord::ChosenIndex
        } else if kind % 5 == 1 {
            StorageRecord::Truncation
        } else if kind % 5 == 2 {
            StorageRecord::Snapshot
        } else if slots.len() > 0 {
            StorageRecord::Accepted(slots[pick as int % slots.len() as int])
        } else {
            StorageRecord::Promise
        }
    }

    /// A transient read error: crashes the node once, with no availability
    /// cost.
    pub open spec fn read_rot(
        self,
        key: u64,
        node: u64,
        fires: bool,
        kind: u64,
        pick: u64,
    ) -> WorldView {
        if !fires || !self.disks.contains_key(key) {
            self
        } else {
            let record = self.read_target(key, kind, pick);
            self.with_disk(key, DiskView { read_eio: Some(record), ..self.disks[key] })
                .note_corruption(injection(node, record, CorruptionKind::ReadEio, false))
        }
    }

    /// One boot's rot, family by family.
    pub open spec fn boot_rot(
        self,
        key: u64,
        node: u64,
        coins: RotCoins,
        draws: RotDraws,
    ) -> WorldView {
        self.bit_flips(key, node, coins, draws).lost_bytes(
            key,
            node,
            coins.lost_write,
            coins.lost_write_last,
            draws.lost_write_pick,
            RecordHealth::Lost,
            CorruptionKind::LostWrite,
        ).lost_bytes(
            key,
            node,
            coins.misdirect,
            coins.misdirect_last,
            draws.misdirect_pick,
            RecordHealth::Misdirected,
            CorruptionKind::Misdirected,
        ).snapshot_rot(key, node, coins.snapshot).promise_rot(
            key,
            node,
            coins.promise,
            coins.promise_both,
            coins.promise_second,
        ).store_fault(key, node, coins.meta, draws.meta_kind).chunk_rot(
            key,
            node,
            coins.snap_chunk,
            draws.chunks,
            draws.chunk_first,
        ).read_rot(key, node, coins.read_eio, draws.read_kind, draws.read_pick)
    }
}

impl StorageWorld {
    /// The clean records of `key` that the per-record budget lets rot, in slot
    /// order.
    fn rot_targets(&self, key: u64) -> (targets: Vec<u64>)
        ensures
            targets@ == self@.rot_targets(key),
    {
        let mut targets: Vec<u64> = Vec::new();
        if let Some(disk) = self.disks.get(key) {
            let clean = disk.clean_slots();
            let n = clean.len();
            let ghost list = ascending(clean@);
            let ghost pred = |slot: u64| self@.may_corrupt_record(key, slot);
            let mut i: usize = 0;
            proof {
                reveal(Seq::filter);
                assert(list.take(0).filter(pred) =~= targets@);
            }
            while i < n
                invariant
                    i <= n,
                    n == clean@.len(),
                    n == list.len(),
                    list == ascending(clean@),
                    pred == (|slot: u64| self@.may_corrupt_record(key, slot)),
                    targets@ == list.take(i as int).filter(pred),
                decreases n - i,
            {
                let slot = clean.at(i);
                proof {
                    reveal(Seq::filter);
                    assert(list.take(i + 1).drop_last() =~= list.take(i as int));
                    assert(list.take(i + 1).last() == slot);
                }
                if self.may_corrupt_record(key, slot) {
                    targets.push(slot);
                }
                i = i + 1;
            }
            proof {
                assert(list.take(i as int) =~= list);
                lemma_lists_filter(list, clean@, pred);
            }
        }
        targets
    }

    fn rot_entry(
        &mut self,
        key: u64,
        node: u64,
        slot: u64,
        health: SlotHealth,
        kind: CorruptionKind,
        block: bool,
    )
        ensures
            final(self)@ == old(self)@.rot_entry(key, node, slot, health, kind, block),
    {
        let ghost w = self@;
        if self.disks.contains(key) {
            let mut disk = self.take_disk(key);
            disk.entry_health.insert(slot, health);
            self.put_disk(key, disk);
            assert(self@.disks =~= w.mend_disk(
                key,
                DiskView {
                    entry_health: w.disks[key].entry_health.insert(slot, health),
                    ..w.disks[key]
                },
            ).disks);
        }
        self.mark_slot(key, slot);
        self.note_corruption(
            CorruptionInjection {
                node,
                record: StorageRecord::Accepted(slot),
                kind,
                block,
                outcome: CorruptionOutcome::Dormant,
            },
        );
        self.note_if_unrecoverable(slot);
    }

    fn rot_block(
        &mut self,
        key: u64,
        node: u64,
        slots: &Vec<u64>,
        primary: u64,
        id_faulty: bool,
        block: bool,
    )
        ensures
            final(self)@ == old(self)@.rot_block(key, node, slots@, primary, id_faulty, block),
    {
        let mut i: usize = 0;
        assert(slots@.take(0) =~= Seq::<u64>::empty());
        while i < slots.len()
            invariant
                i <= slots@.len(),
                self@ == old(self)@.rot_block(
                    key,
                    node,
                    slots@.take(i as int),
                    primary,
                    id_faulty,
                    block,
                ),
            decreases slots@.len() - i,
        {
            let slot = slots[i];
            proof {
                assert(slots@.take(i + 1).drop_last() =~= slots@.take(i as int));
                assert(slots@.take(i + 1).last() == slot);
            }
            let id = if slot == primary && id_faulty {
                WitnessStatus::Faulty
            } else {
                WitnessStatus::Present
            };
            self.rot_entry(
                key,
                node,
                slot,
                SlotHealth { entry: RecordHealth::Faulty, id },
                CorruptionKind::BitFlip,
                block,
            );
            i = i + 1;
        }
        assert(slots@.take(i as int) =~= slots@);
    }

    fn bit_flips(&mut self, key: u64, node: u64, coins: RotCoins, draws: RotDraws)
        ensures
            final(self)@ == old(self)@.bit_flips(key, node, coins, draws),
    {
        if !coins.entry {
            return;
        }
        let targets = self.rot_targets(key);
        if targets.len() == 0 {
            return;
        }
        let primary = pick(&targets, coins.entry_last, draws.entry_pick);
        let id_faulty = coins.entry_id && self.may_park(key);
        let mut members: Vec<u64> = Vec::new();
        if coins.entry_block {
            members = window(&targets, primary, draws.entry_width);
        } else {
            members.push(primary);
            assert(members@ =~= seq![primary]);
        }
        let block = members.len() > 1;
        self.rot_block(key, node, &members, primary, id_faulty, block);
        if id_faulty {
            self.park(key, node);
        }
    }

    fn lost_bytes(
        &mut self,
        key: u64,
        node: u64,
        fires: bool,
        last: bool,
        draw: u64,
        health: RecordHealth,
        kind: CorruptionKind,
    )
        ensures
            final(self)@ == old(self)@.lost_bytes(key, node, fires, last, draw, health, kind),
    {
        if !fires {
            return;
        }
        if let Some(slot) = self.pick_permitted(key, last, draw) {
            self.rot_entry(
                key,
                node,
                slot,
                SlotHealth { entry: health, id: WitnessStatus::Present },
                kind,
                false,
            );
        }
    }

    /// One budget-permitted rot target of `key`.
    fn pick_permitted(&self, key: u64, last: bool, draw: u64) -> (slot: Option<u64>)
        ensures
            slot == if self@.rot_targets(key).len() == 0 {
                None
            } else {
                Some(picked(self@.rot_targets(key), last, draw))
            },
    {
        let targets = self.rot_targets(key);
        if targets.len() == 0 {
            return None;
        }
        Some(pick(&targets, last, draw))
    }

    fn snapshot_rot(&mut self, key: u64, node: u64, fires: bool)
        ensures
            final(self)@ == old(self)@.snapshot_rot(key, node, fires),
    {
        let ghost w = self@;
        if !fires {
            return;
        }
        let (eligible, floor) = match self.disks.get(key) {
            Some(disk) => (
                disk.chain.applied_count > 0 && (self.unbudgeted || self.cluster_size > 1
                    || disk.first_slot == 0),
                disk.first_slot,
            ),
            None => (false, 0),
        };
        if !eligible {
            return;
        }
        let mut disk = self.take_disk(key);
        disk.snapshot_health = RecordHealth::Faulty;
        self.put_disk(key, disk);
        assert(self@.disks =~= w.with_disk(
            key,
            DiskView { snapshot_health: RecordHealth::Faulty, ..w.disks[key] },
        ).disks);
        self.note_corruption(
            CorruptionInjection {
                node,
                record: StorageRecord::Snapshot,
                kind: CorruptionKind::BitFlip,
                block: false,
                outcome: CorruptionOutcome::Dormant,
            },
        );
        self.note_folded_prefix(floor);
    }

    fn promise_rot(&mut self, key: u64, node: u64, fires: bool, both: bool, second: bool)
        ensures
            final(self)@ == old(self)@.promise_rot(key, node, fires, both, second),
    {
        let ghost w = self@;
        if !fires || !self.disks.contains(key) {
            return;
        }
        let record = CorruptionInjection {
            node,
            record: StorageRecord::Promise,
            kind: CorruptionKind::PromiseCopy,
            block: false,
            outcome: CorruptionOutcome::Dormant,
        };
        if both {
            if self.may_park(key) {
                let mut disk = self.take_disk(key);
                disk.promise_health = (RecordHealth::Faulty, RecordHealth::Faulty);
                self.put_disk(key, disk);
                assert(self@.disks =~= w.with_disk(
                    key,
                    DiskView {
                        promise_health: (RecordHealth::Faulty, RecordHealth::Faulty),
                        ..w.disks[key]
                    },
                ).disks);
                self.park(key, node);
                self.note_corruption(record);
                self.note_corruption(record);
            }
        } else {
            let mut disk = self.take_disk(key);
            let ghost before = disk@;
            let health = disk.promise_health;
            let twin = if second {
                health.0
            } else {
                health.1
            };
            let rots = twin == RecordHealth::Clean;
            if rots {
                disk.promise_health = if second {
                    (health.0, RecordHealth::Faulty)
                } else {
                    (RecordHealth::Faulty, health.1)
                };
            }
            let ghost after = disk@;
            self.put_disk(key, disk);
            assert(self@.disks =~= w.with_disk(key, after).disks);
            if rots {
                self.note_corruption(record);
            } else {
                assert(self@.disks =~= w.disks);
            }
        }
    }

    fn store_fault(&mut self, key: u64, node: u64, fires: bool, kind: u64)
        ensures
            final(self)@ == old(self)@.store_fault(key, node, fires, kind),
    {
        let ghost w = self@;
        if !fires || !self.disks.contains(key) || !self.may_park(key) {
            return;
        }
        let fault = if kind % 3 == 0 {
            MetadataFault::Missing
        } else if kind % 3 == 1 {
            MetadataFault::WrongSize
        } else {
            MetadataFault::ReadOnly
        };
        let mut disk = self.take_disk(key);
        disk.meta_fault = Some(fault);
        self.put_disk(key, disk);
        assert(self@.disks =~= w.with_disk(
            key,
            DiskView { meta_fault: Some(fault), ..w.disks[key] },
        ).disks);
        self.park(key, node);
        self.note_corruption(
            CorruptionInjection {
                node,
                record: StorageRecord::Store,
                kind: CorruptionKind::Metadata,
                block: false,
                outcome: CorruptionOutcome::Dormant,
            },
        );
    }

    /// How many live nodes hold a clean copy of one chunk of a point.
    fn chunk_copies(&self, at: u64, chunk: usize) -> (copies: usize)
        ensures
            copies == self@.chunk_copies(at, chunk as int),
    {
        let mut holders: OrdSet<u64> = OrdSet::new();
        let n = self.disks.len();
        let ghost dom = self.disks@.dom();
        let ghost pred = |k: u64| self@.live_clean_chunk(k, at, chunk as int);
        let mut i: usize = 0;
        proof {
            lemma_walk(dom, 0);
            assert(holders@ =~= walked(dom, 0).filter(pred));
        }
        while i < n
            invariant
                i <= n,
                dom == self.disks@.dom(),
                n == dom.len(),
                n == ascending(dom).len(),
                lists(ascending(dom), dom),
                pred == (|k: u64| self@.live_clean_chunk(k, at, chunk as int)),
                holders@ == walked(dom, i as int).filter(pred),
            decreases n - i,
        {
            proof {
                lemma_walk(dom, i as int);
            }
            let key = self.disks.key_at(i);
            let disk = self.disks.value_at(i);
            if !self.parked.contains(key) && disk.has_point(at) && disk.chunk_clean(chunk) {
                holders.insert(key);
            }
            i = i + 1;
            assert(holders@ =~= walked(dom, i as int).filter(pred));
        }
        proof {
            lemma_walk(dom, n as int);
        }
        holders.len()
    }

    fn rot_chunk(&mut self, key: u64, node: u64, at: u64, chunks: usize, chunk: usize)
        requires
            chunk < chunks,
        ensures
            final(self)@ == old(self)@.rot_chunk(key, node, at, chunks as nat, chunk as int),
    {
        let ghost w = self@;
        let clean = match self.disks.get(key) {
            Some(disk) => disk.chunk_clean(chunk),
            None => false,
        };
        if !clean {
            return;
        }
        let copies = self.chunk_copies(at, chunk);
        let left = if copies >= 1 {
            copies - 1
        } else {
            0
        };
        if !self.unbudgeted && left < self.quorum() {
            return;
        }
        let mut disk = self.take_disk(key);
        let floor = disk.first_slot;
        disk.set_chunk(chunk, chunks, RecordHealth::Faulty);
        let ghost after = disk@;
        self.put_disk(key, disk);
        assert(self@.disks =~= w.with_disk(key, after).disks);
        let name: u32 = if chunk <= u32::MAX as usize {
            chunk as u32
        } else {
            u32::MAX
        };
        self.note_corruption(
            CorruptionInjection {
                node,
                record: StorageRecord::SnapChunk(at, name),
                kind: CorruptionKind::BitFlip,
                block: false,
                outcome: CorruptionOutcome::Dormant,
            },
        );
        self.note_folded_prefix(floor);
    }

    fn chunk_rot(&mut self, key: u64, node: u64, fires: bool, count: u64, first: u64)
        ensures
            final(self)@ == old(self)@.chunk_rot(key, node, fires, count, first),
    {
        if !fires {
            return;
        }
        let (at, len) = match self.disks.get(key) {
            Some(disk) => match &disk.snap_point {
                Some(point) => (point.at, point.state.blob.len()),
                None => {
                    return;
                },
            },
            None => {
                return;
            },
        };
        let chunks = self.chunk_size.snap_chunk_count(len);
        if chunks == 0 {
            return;
        }
        let rotting: usize = if count <= chunks as u64 {
            count as usize
        } else {
            chunks
        };
        let start: usize = if first <= u32::MAX as u64 {
            (first % chunks as u64) as usize
        } else {
            0
        };
        let ghost w = self@;
        let mut offset: usize = 0;
        while offset < rotting
            invariant
                offset <= rotting <= chunks,
                start < chunks,
                self@ == w.rot_chunks(
                    key,
                    node,
                    at,
                    chunks as nat,
                    start as int,
                    offset as nat,
                ),
            decreases rotting - offset,
        {
            let room = chunks - start;
            let chunk = if offset >= room {
                offset - room
            } else {
                start + offset
            };
            proof {
                if offset >= room {
                    vstd::arithmetic::div_mod::lemma_fundamental_div_mod_converse(
                        start + offset,
                        chunks as int,
                        1,
                        chunk as int,
                    );
                } else {
                    vstd::arithmetic::div_mod::lemma_small_mod(
                        (start + offset) as nat,
                        chunks as nat,
                    );
                }
                assert((start + (offset + 1) - 1) % chunks as int == chunk);
            }
            self.rot_chunk(key, node, at, chunks, chunk);
            offset = offset + 1;
        }
    }

    fn read_rot(&mut self, key: u64, node: u64, fires: bool, kind: u64, draw: u64)
        ensures
            final(self)@ == old(self)@.read_rot(key, node, fires, kind, draw),
    {
        let ghost w = self@;
        if !fires || !self.disks.contains(key) {
            return;
        }
        let mut disk = self.take_disk(key);
        let n = disk.accepted.len();
        let record = if kind % 5 == 0 {
            StorageRecord::ChosenIndex
        } else if kind % 5 == 1 {
            StorageRecord::Truncation
        } else if kind % 5 == 2 {
            StorageRecord::Snapshot
        } else if n > 0 {
            StorageRecord::Accepted(disk.accepted.key_at((draw % n as u64) as usize))
        } else {
            StorageRecord::Promise
        };
        disk.read_eio = Some(record);
        let ghost after = disk@;
        self.put_disk(key, disk);
        assert(self@.disks =~= w.with_disk(key, after).disks);
        self.note_corruption(
            CorruptionInjection {
                node,
                record,
                kind: CorruptionKind::ReadEio,
                block: false,
                outcome: CorruptionOutcome::Dormant,
            },
        );
    }

    /// One boot's rot, with its integer draws given.
    pub fn roll_boot_rot_with(&mut self, key: u64, node: u64, coins: RotCoins, draws: RotDraws)
        ensures
            final(self)@ == old(self)@.boot_rot(key, node, coins, draws),
    {
        self.bit_flips(key, node, coins, draws);
        self.lost_bytes(
            key,
            node,
            coins.lost_write,
            coins.lost_write_last,
            draws.lost_write_pick,
            RecordHealth::Lost,
            CorruptionKind::LostWrite,
        );
        self.lost_bytes(
            key,
            node,
            coins.misdirect,
            coins.misdirect_last,
            draws.misdirect_pick,
            RecordHealth::Misdirected,
            CorruptionKind::Misdirected,
        );
        self.snapshot_rot(key, node, coins.snapshot);
        self.promise_rot(key, node, coins.promise, coins.promise_both, coins.promise_second);
        self.store_fault(key, node, coins.meta, draws.meta_kind);
        self.chunk_rot(key, node, coins.snap_chunk, draws.chunks, draws.chunk_first);
        self.read_rot(key, node, coins.read_eio, draws.read_kind, draws.read_pick);
    }

    /// Roll one booting node's rot.
    pub fn roll_boot_rot(&mut self, key: u64, node: u64, coins: RotCoins)
        ensures
            exists|draws: RotDraws|
                draws.in_range() && final(self)@ == #[trigger] old(self)@.boot_rot(
                    key,
                    node,
                    coins,
                    draws,
                ),
    {
        let draws = RotDraws::draw();
        self.roll_boot_rot_with(key, node, coins, draws);
    }
}

impl DurableStorage {
    /// Open a handle at a boot: inside the chaos window the boot's rot is
    /// rolled first, so that injection and detection are one step.
    pub fn restore(
        world: &mut StorageWorld,
        key: u64,
        node_id: u64,
        faults: StorageFaults,
        now_ns: u64,
        coins: RotCoins,
    ) -> (storage: DurableStorage)
        ensures
            if faults.live(now_ns) {
                exists|draws: RotDraws|
                    draws.in_range() && final(world)@ == #[trigger] old(world)@.boot_rot(
                        key,
                        node_id,
                        coins,
                        draws,
                    )
            } else {
                final(world)@ == old(world)@
            },
            storage@ == StorageView::opened(final(world)@, key, node_id, faults),
    {
        if faults.active(now_ns) {
            world.roll_boot_rot(key, node_id, coins);
        }
        DurableStorage::open(world, key, node_id, faults)
    }
}

fn pick(slots: &Vec<u64>, last: bool, draw: u64) -> (slot: u64)
    requires
        slots@.len() > 0,
    ensures
        slot == picked(slots@, last, draw),
{
    if last {
        slots[slots.len() - 1]
    } else {
        slots[(draw % slots.len() as u64) as usize]
    }
}

/// The slots among the `width` that end at `primary`.
fn window(slots: &Vec<u64>, primary: u64, width: u64) -> (members: Vec<u64>)
    ensures
        members@ == slots@.filter(|slot: u64| slot + width > primary && slot <= primary),
{
    let ghost pred = |slot: u64| slot + width > primary && slot <= primary;
    let mut members: Vec<u64> = Vec::new();
    let mut i: usize = 0;
    proof {
        reveal(Seq::filter);
        assert(slots@.take(0).filter(pred) =~= members@);
    }
    while i < slots.len()
        invariant
            i <= slots@.len(),
            pred == (|slot: u64| slot + width > primary && slot <= primary),
            members@ == slots@.take(i as int).filter(pred),
        decreases slots@.len() - i,
    {
        let slot = slots[i];
        proof {
            reveal(Seq::filter);
            assert(slots@.take(i + 1).drop_last() =~= slots@.take(i as int));
            assert(slots@.take(i + 1).last() == slot);
        }
        if slot <= primary && primary - slot < width {
            members.push(slot);
        }
        i = i + 1;
    }
    assert(slots@.take(i as int) =~= slots@);
    members
}

} // verus!
