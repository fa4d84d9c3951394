//! The fake disk world: every node's durable records, the fault ledgers, and
//! the budgets that keep a run winnable.
//!
//! The world is protocol-blind: it stores records, never knowing what is
//! committed. It outlives process crashes, so a write that reached it before a
//! crash is read back on restart, exactly like a real disk.
//!
//! Faults are budgeted per record and cluster-wide: at most `quorum - 1` copies
//! of an accepted record may be suppressed, counted over live copies at the
//! moment of injection. A mark clears only when the node genuinely re-writes
//! the record (or truncates past it).
use crate::disk::{DiskView, NodeDisk, RecordHealth};
use crate::ordered::{MapKey, OrdMap, OrdSet, ascending, lemma_walk, lists, walked};
use crate::registry::{MatchmakerDisk, RegistryView};
use crate::records::{AppState, AppView, ChunkSize, StorageRecord, chunks_of};
use vstd::prelude::*;


verus! {

/// One injected write-path fault: the ground truth the oracles compare
/// against. The node only ever sees the ambiguous typed error.
#[derive(Clone, Copy, Debug, PartialEq, Eq, Structural)]
pub struct InjectedFault {
    pub node: u64,
    pub record: StorageRecord,
    pub kind: InjectedFaultKind,
    /// Did the effect reach the durable disk despite the reported error?
    pub persisted: bool,
}

#[derive(Clone, Copy, Debug, PartialEq, Eq, Structural)]
pub enum InjectedFaultKind {
    /// A per-record write returned an I/O error.
    WriteEio,
    /// The staged batch's fsync failed.
    FsyncFailed,
}

/// The fault family of one corruption injection.
#[derive(Clone, Copy, Debug, PartialEq, Eq, Structural)]
pub enum CorruptionKind {
    /// Bit flip or latent sector error on a persisted record.
    BitFlip,
    /// A write acknowledged clean that never reached the medium.
    LostWrite,
    /// A block-aligned write landing on the wrong record.
    Misdirected,
    /// A transient error on the read path.
    ReadEio,
    /// A torn un-synced batch: fresh appends durable without identifiers.
    TornTail,
    /// One (or both) hard-state copies rotted.
    PromiseCopy,
    /// A fault of the whole store.
    Metadata,
}

/// What became of one corruption injection.
#[derive(Clone, Copy, Debug, PartialEq, Eq, Structural)]
pub enum CorruptionOutcome {
    /// Injected but not read back yet.
    Dormant,
    /// Read, detected, and surfaced as the driver's typed crash decision.
    Crashed,
    /// Detected in the same scan as a crashed record and covered by that one
    /// crash decision.
    CoDetected,
    /// Read, detected, and repaired from the twin copy.
    Repaired,
    /// Read, classified crash-truncatable, and discarded locally.
    DiscardedTail,
    /// Read, classified recoverable, and reported instead of crashing.
    Reported,
    /// The record was genuinely re-written by a clean flush, or superseded by
    /// truncation.
    Recovered,
}

/// Ground truth of one corruption injection.
#[derive(Clone, Copy, Debug, PartialEq, Eq, Structural)]
pub struct CorruptionInjection {
    pub node: u64,
    pub record: StorageRecord,
    pub kind: CorruptionKind,
    /// Part of a multi-record block fault.
    pub block: bool,
    pub outcome: CorruptionOutcome,
}

/// A sticky fact for the coverage gates, recorded at the detection instant.
#[derive(Clone, Copy, Debug, PartialEq, Eq, Structural)]
pub enum Sighting {
    BitFlipDetected,
    LostWriteDetected,
    MisdirectedDetected,
    ReadEioDetected,
    TornTailDiscarded,
    SnapshotDetected,
    PromiseRepaired,
    MetadataCrashed,
    CorruptionBelowTail,
    LastEntryAmbiguity,
    IdentifierLost,
    /// A recoverable rotted record was reported.
    FaultyReported,
    /// A reported record was genuinely re-written by a clean flush.
    RecordRecovered,
    /// A corrupted application snapshot was reset for local log replay.
    SnapshotResetLocal,
    /// A corrupted application snapshot was reset under a truncated log.
    SnapshotResetRemote,
    /// A member of a multi-record block fault was read back and detected.
    BlockDetected,
}

impl Sighting {
    pub open spec fn code(self) -> int {
        match self {
            Sighting::BitFlipDetected => 0,
            Sighting::LostWriteDetected => 1,
            Sighting::MisdirectedDetected => 2,
            Sighting::ReadEioDetected => 3,
            Sighting::TornTailDiscarded => 4,
            Sighting::SnapshotDetected => 5,
            Sighting::PromiseRepaired => 6,
            Sighting::MetadataCrashed => 7,
            Sighting::CorruptionBelowTail => 8,
            Sighting::LastEntryAmbiguity => 9,
            Sighting::IdentifierLost => 10,
            Sighting::FaultyReported => 11,
            Sighting::RecordRecovered => 12,
            Sighting::SnapshotResetLocal => 13,
            Sighting::SnapshotResetRemote => 14,
            Sighting::BlockDetected => 15,
        }
    }

    fn index(self) -> (code: u8)
        ensures
            code == self.code(),
    {
        match self {
            Sighting::BitFlipDetected => 0,
            Sighting::LostWriteDetected => 1,
            Sighting::MisdirectedDetected => 2,
            Sighting::ReadEioDetected => 3,
            Sighting::TornTailDiscarded => 4,
            Sighting::SnapshotDetected => 5,
            Sighting::PromiseRepaired => 6,
            Sighting::MetadataCrashed => 7,
            Sighting::CorruptionBelowTail => 8,
            Sighting::LastEntryAmbiguity => 9,
            Sighting::IdentifierLost => 10,
            Sighting::FaultyReported => 11,
            Sighting::RecordRecovered => 12,
            Sighting::SnapshotResetLocal => 13,
            Sighting::SnapshotResetRemote => 14,
            Sighting::BlockDetected => 15,
        }
    }
}

impl MapKey for Sighting {
    open spec fn rank(self) -> int {
        self.code()
    }

    proof fn rank_is_injective(a: Self, b: Self) {
    }

    fn precedes(self, other: Self) -> (before: bool) {
        self.index() < other.index()
    }
}

/// The per-run durable-storage world. Nodes are keyed by a number of the
/// harness's choosing, one per address.
pub struct StorageWorld {
    pub disks: OrdMap<u64, NodeDisk>,
    /// The matchmakers' durable registries; empty on a plain run.
    pub matchmakers: OrdMap<u64, MatchmakerDisk>,
    /// Matchmakers whose sync has failed at least once.
    pub sick_matchmakers: OrdSet<u64>,
    /// Matchmakers whose registry is lost for good.
    pub lost_matchmakers: OrdSet<u64>,
    /// Full cluster membership size; zero refuses every injection.
    pub cluster_size: usize,
    /// The application's digest-lane count for this run.
    pub lane_count: Option<u8>,
    /// The lane count of a run that never fixes one.
    pub default_lanes: u8,
    /// The empty application state at the run's lane count: every node's blob
    /// must slice identically.
    pub empty: AppState,
    pub chunk_size: ChunkSize,
    /// Every permitted write-path injection, in order.
    pub injected: Vec<InjectedFault>,
    /// Per node, the accepted records whose most recent write was lost, torn or
    /// corrupted and not yet re-written. These are what the budget counts.
    pub marks: OrdMap<u64, OrdSet<u64>>,
    /// Every corruption injection, in order.
    pub corruptions: Vec<CorruptionInjection>,
    /// Nodes terminally crashed by a detected persistent fault.
    pub parked: OrdSet<u64>,
    /// The same nodes by protocol id.
    pub parked_ids: OrdSet<u64>,
    /// Nodes that came back on an empty disk; each is parked as well.
    pub wiped: OrdSet<u64>,
    /// What the scans and flushes of this run have witnessed so far.
    pub seen: OrdSet<Sighting>,
    /// A targeted injection may take every copy of a record.
    pub unbudgeted: bool,
    /// Slots an unbudgeted run drove to zero readable copies.
    pub unrecoverable: OrdSet<u64>,
    /// Scripted lifecycle: bumping a node's epoch drops its incarnation.
    pub restart_epochs: OrdMap<u64, u64>,
    /// Scripted lifecycle: nodes held down between incarnations.
    pub held: OrdSet<u64>,
}

pub struct WorldView {
    pub disks: Map<u64, DiskView>,
    pub matchmakers: Map<u64, RegistryView>,
    pub sick_matchmakers: Set<u64>,
    pub lost_matchmakers: Set<u64>,
    pub cluster_size: nat,
    pub lane_count: Option<u8>,
    pub default_lanes: u8,
    pub empty: AppView,
    pub chunk_bytes: nat,
    pub injected: Seq<InjectedFault>,
    pub marks: Map<u64, Set<u64>>,
    pub corruptions: Seq<CorruptionInjection>,
    pub parked: Set<u64>,
    pub parked_ids: Set<u64>,
    pub wiped: Set<u64>,
    pub seen: Set<Sighting>,
    pub unbudgeted: bool,
    pub unrecoverable: Set<u64>,
    pub restart_epochs: Map<u64, u64>,
    pub held: Set<u64>,
}

impl View for StorageWorld {
    type V = WorldView;

    open spec fn view(&self) -> WorldView {
        WorldView {
            disks: self.disks@,
            matchmakers: self.matchmakers@,
            sick_matchmakers: self.sick_matchmakers@,
            lost_matchmakers: self.lost_matchmakers@,
            cluster_size: self.cluster_size as nat,
            lane_count: self.lane_count,
            default_lanes: self.default_lanes,
            empty: self.empty@,
            chunk_bytes: self.chunk_size@,
            injected: self.injected@,
            marks: self.marks@,
            corruptions: self.corruptions@,
            parked: self.parked@,
            parked_ids: self.parked_ids@,
            wiped: self.wiped@,
            seen: self.seen@,
            unbudgeted: self.unbudgeted,
            unrecoverable: self.unrecoverable@,
            restart_epochs: self.restart_epochs@,
            held: self.held@,
        }
    }
}

/// The one slot.
pub open spec fn just(slot: u64) -> spec_fn(u64) -> bool {
    |s: u64| s == slot
}

/// The slots below a floor.
pub open spec fn below(floor: u64) -> spec_fn(u64) -> bool {
    |s: u64| s < floor
}

/// `a - b`, or zero where that would be negative.
pub open spec fn less(a: nat, b: nat) -> nat {
    if a >= b {
        (a - b) as nat
    } else {
        0
    }
}

impl WorldView {
    /// A world's collections are finite.
    pub open spec fn valid(self) -> bool {
        &&& self.disks.dom().finite()
        &&& self.marks.dom().finite()
        &&& self.parked.finite()
        &&& forall|key: u64| #[trigger]
            self.disks.contains_key(key) ==> self.disks[key].accepted.dom().finite()
    }

    /// A strict majority of the cluster.
    pub open spec fn quorum(self) -> nat {
        self.cluster_size / 2 + 1
    }

    /// How many nodes a run may terminally lose while keeping a live quorum.
    pub open spec fn dead_budget(self) -> nat {
        less(self.cluster_size, self.quorum())
    }

    pub open spec fn marked(self, key: u64, slot: u64) -> bool {
        self.marks.contains_key(key) && self.marks[key].contains(slot)
    }

    /// The nodes whose record at `slot` is marked.
    pub open spec fn marked_at(self, slot: u64) -> Set<u64> {
        self.marks.dom().filter(|key: u64| self.marks[key].contains(slot))
    }

    /// The nodes that truncated past `slot`.
    pub open spec fn truncated_past(self, slot: u64) -> Set<u64> {
        self.disks.dom().filter(|key: u64| self.disks[key].first_slot > slot)
    }

    /// The nodes that hold no clean live copy of the record at `slot`: marked
    /// for it, truncated past it, or terminally parked. A node the world has
    /// never seen is a clean potential copy.
    pub open spec fn unclean(self, slot: u64) -> Set<u64> {
        self.marked_at(slot).union(self.truncated_past(slot)).union(self.parked)
    }

    pub open spec fn clean_copies(self, slot: u64) -> nat {
        less(self.cluster_size, self.unclean(slot).len())
    }

    /// Clean copies left at `slot` if `key` lost its copy too.
    pub open spec fn copies_without(self, key: u64, slot: u64) -> nat {
        less(
            self.clean_copies(slot),
            if self.marked(key, slot) {
                0
            } else {
                1
            },
        )
    }

    /// The availability re-derivation: the nodes that can serve neither the
    /// record at `slot` nor the snapshot that superseded it. A node that
    /// truncated past the slot can serve the snapshot, so it counts as clean.
    pub open spec fn lost_at(self, slot: u64) -> Set<u64> {
        self.marked_at(slot).union(self.parked)
    }

    pub open spec fn marked_anywhere(self, slot: u64) -> bool {
        exists|key: u64| #[trigger] self.marked(key, slot)
    }

    /// Every marked record still has a quorum of nodes that can serve it.
    pub open spec fn clean_quorum_everywhere(self) -> bool {
        forall|slot: u64| #[trigger]
            self.marked_anywhere(slot) ==> less(self.cluster_size, self.lost_at(slot).len())
                >= self.quorum()
    }

    pub open spec fn parked_within_budget(self) -> bool {
        self.parked.len() <= self.dead_budget()
    }

    /// Faults never cost the cluster the quorum it recovers from: neither a
    /// record's clean quorum nor a quorum of live nodes.
    pub open spec fn winnable(self) -> bool {
        self.clean_quorum_everywhere() && self.parked_within_budget()
    }

    /// Whether terminally parking `key` is inside the dead-node budget and
    /// leaves every record it holds, and every record marked anywhere, a clean
    /// quorum elsewhere.
    pub open spec fn may_park(self, key: u64) -> bool {
        &&& self.cluster_size > 0
        &&& self.parked.contains(key) || {
            &&& self.parked.len() + 1 <= self.dead_budget()
            &&& self.disks.contains_key(key) ==> forall|slot: u64| #[trigger]
                self.disks[key].accepted.contains_key(slot) ==> self.copies_without(key, slot)
                    >= self.quorum()
            &&& forall|slot: u64| #[trigger]
                self.marked_anywhere(slot) ==> less(
                    self.cluster_size,
                    self.lost_at(slot).insert(key).len(),
                ) >= self.quorum()
        }
    }

    pub open spec fn park(self, key: u64, node: u64) -> WorldView {
        WorldView {
            parked: self.parked.insert(key),
            parked_ids: self.parked_ids.insert(node),
            ..self
        }
    }

    /// The world after a wipe of `key`'s disk, which the dead-node budget may
    /// refuse.
    pub open spec fn wipe(self, key: u64, node: u64) -> WorldView {
        if self.may_park(key) {
            WorldView { wiped: self.wiped.insert(key), ..self.park(key, node) }
        } else {
            self
        }
    }

    /// Whether a recoverable corruption of the record at `slot` on `key` is
    /// inside the per-record budget.
    pub open spec fn may_corrupt_record(self, key: u64, slot: u64) -> bool {
        self.cluster_size > 0 && (self.unbudgeted || self.copies_without(key, slot)
            >= self.quorum())
    }

    pub open spec fn live_disk(self, key: u64) -> bool {
        self.disks.contains_key(key) && !self.parked.contains(key)
    }

    /// A live node can serve `slot` by itself: it holds the record clean, or
    /// its snapshot covers the slot.
    pub open spec fn serves(self, key: u64, slot: u64) -> bool {
        self.live_disk(key) && (self.disks[key].holds_clean(slot) || (self.disks[key].first_slot
            > slot && self.disks[key].snapshot_health == RecordHealth::Clean))
    }

    pub open spec fn holds_point(self, key: u64, at: u64) -> bool {
        holds_point(self.disks, key, at)
    }

    /// The first node, in key order, that holds the point captured at `at`.
    pub open spec fn first_holder(self, at: u64) -> u64 {
        first_holder(self.disks, at)
    }

    /// How many chunks the point captured at `at` is sliced into.
    pub open spec fn point_chunks(self, at: u64) -> nat {
        chunks_of(self.disks[self.first_holder(at)].snap_point->0.state.blob.len(), self.chunk_bytes)
    }

    pub open spec fn live_clean_chunk(self, key: u64, at: u64, chunk: int) -> bool {
        self.live_disk(key) && self.disks[key].has_point(at) && self.disks[key].chunk_clean(chunk)
    }

    pub open spec fn chunk_served(self, at: u64, chunk: int) -> bool {
        exists|key: u64| #[trigger] self.live_clean_chunk(key, at, chunk)
    }

    /// The point captured at `at` can be put together from clean chunks of live
    /// nodes. The point is byte-identical cluster-wide, so any clean copy of a
    /// chunk will do.
    pub open spec fn assemblable(self, at: u64) -> bool {
        &&& exists|key: u64| #[trigger] self.live_disk(key) && self.disks[key].has_point(at)
        &&& forall|chunk: int|
            0 <= chunk < self.point_chunks(at) ==> #[trigger] self.chunk_served(at, chunk)
    }

    /// `slot` has no readable copy anywhere: no live node serves it, and no
    /// decided snapshot point at or past it can be assembled.
    pub open spec fn slot_unrecoverable(self, slot: u64) -> bool {
        &&& forall|key: u64| !#[trigger] self.serves(key, slot)
        &&& forall|at: u64| at >= slot ==> !#[trigger] self.assemblable(at)
    }

    /// The slots to add to the unrecoverable ground truth among `touched`.
    pub open spec fn note_unrecoverable(self, touched: spec_fn(u64) -> bool) -> WorldView {
        WorldView {
            unrecoverable: if self.unbudgeted {
                self.unrecoverable.union(
                    Set::new(|slot: u64| touched(slot) && self.slot_unrecoverable(slot)),
                )
            } else {
                self.unrecoverable
            },
            ..self
        }
    }

    pub open spec fn note_corruption(self, injection: CorruptionInjection) -> WorldView {
        WorldView { corruptions: self.corruptions.push(injection), ..self }
    }

    pub open spec fn resolve(
        self,
        node: u64,
        record: StorageRecord,
        outcome: CorruptionOutcome,
    ) -> WorldView {
        WorldView {
            corruptions: resolved(self.corruptions, node, record, outcome),
            seen: if dormant_block(self.corruptions, node, record) {
                self.seen.insert(Sighting::BlockDetected)
            } else {
                self.seen
            },
            ..self
        }
    }

    /// A clean flush re-wrote, or truncation superseded, `record` on `node`.
    pub open spec fn note_recovered(self, node: u64, record: StorageRecord) -> WorldView {
        self.note_recovered_all(node, only(record))
    }

    /// The same for every record that `rewritten` names.
    pub open spec fn note_recovered_all(
        self,
        node: u64,
        rewritten: spec_fn(StorageRecord) -> bool,
    ) -> WorldView {
        WorldView {
            corruptions: recovered(self.corruptions, node, rewritten),
            seen: if any_open(self.corruptions, node, rewritten) {
                self.seen.insert(Sighting::RecordRecovered)
            } else {
                self.seen
            },
            ..self
        }
    }

    /// The marks of `key`, none if it has no entry.
    pub open spec fn marks_of(self, key: u64) -> Set<u64> {
        if self.marks.contains_key(key) {
            self.marks[key]
        } else {
            Set::empty()
        }
    }

    pub open spec fn mark(self, key: u64, slots: Set<u64>) -> WorldView {
        WorldView { marks: self.marks.insert(key, self.marks_of(key).union(slots)), ..self }
    }

    /// Whether an injection that would suppress `slots` on `key` is inside the
    /// budget: every touched record keeps a clean quorum, and some accepted
    /// record of the node stays clean.
    pub open spec fn permits(self, key: u64, slots: Seq<u64>) -> bool {
        &&& self.cluster_size > 0
        &&& forall|i: int|
            0 <= i < slots.len() ==> self.copies_without(key, #[trigger] slots[i])
                >= self.quorum()
        &&& !self.blankets(key, slots)
    }

    /// Suppressing `slots` would leave `key` no clean accepted record.
    pub open spec fn blankets(self, key: u64, slots: Seq<u64>) -> bool {
        &&& self.disks.contains_key(key)
        &&& exists|slot: u64| #[trigger] self.disks[key].accepted.contains_key(slot)
        &&& forall|slot: u64| #[trigger]
            self.disks[key].accepted.contains_key(slot) ==> slots.contains(slot) || self.marked(
                key,
                slot,
            )
    }

    pub open spec fn permit_and_record(
        self,
        key: u64,
        fault: InjectedFault,
        slots: Seq<u64>,
    ) -> WorldView {
        if !self.permits(key, slots) {
            self
        } else {
            let marked = if fault.persisted {
                self
            } else {
                self.mark(key, slots.to_set())
            };
            WorldView { injected: self.injected.push(fault), ..marked }
        }
    }

    pub open spec fn clear_marks(self, key: u64, slots: Set<u64>) -> WorldView {
        if self.marks.contains_key(key) {
            WorldView { marks: self.marks.insert(key, self.marks[key].difference(slots)), ..self }
        } else {
            self
        }
    }

    /// The disk under `key`, as it is born on first touch.
    pub open spec fn disk_or_fresh(self, key: u64) -> DiskView {
        if self.disks.contains_key(key) {
            self.disks[key]
        } else {
            DiskView::fresh(self.empty)
        }
    }

    pub open spec fn with_disk(self, key: u64, disk: DiskView) -> WorldView {
        WorldView { disks: self.disks.insert(key, disk), ..self }
    }

    pub open spec fn see(self, sighting: Sighting) -> WorldView {
        WorldView { seen: self.seen.insert(sighting), ..self }
    }

    /// The marks of other nodes, and of `key` below `floor`, after `key`
    /// truncates at `floor`.
    pub open spec fn retire_marks(self, key: u64, floor: u64) -> WorldView {
        if self.marks.contains_key(key) {
            WorldView {
                marks: self.marks.insert(key, self.marks[key].filter(|slot: u64| slot >= floor)),
                ..self
            }
        } else {
            self
        }
    }
}

pub open spec fn holds_point(disks: Map<u64, DiskView>, key: u64, at: u64) -> bool {
    disks.contains_key(key) && disks[key].has_point(at)
}

/// The first node, in key order, that holds the point captured at `at`.
pub open spec fn first_holder(disks: Map<u64, DiskView>, at: u64) -> u64 {
    choose|key: u64|
        holds_point(disks, key, at) && forall|other: u64| #[trigger]
            holds_point(disks, other, at) ==> key <= other
}

/// The injection at `i` concerns `(node, record)` and has not been read back.
pub open spec fn dormant_at(
    corruptions: Seq<CorruptionInjection>,
    node: u64,
    record: StorageRecord,
    i: int,
) -> bool {
    0 <= i < corruptions.len() && corruptions[i].node == node && corruptions[i].record == record
        && corruptions[i].outcome == CorruptionOutcome::Dormant
}

/// The family of one record.
pub open spec fn only(record: StorageRecord) -> spec_fn(StorageRecord) -> bool {
    |r: StorageRecord| r == record
}

/// The injection at `i` concerns a record of `node` that `rewritten` names, and
/// is still standing: unread, or reported and not yet re-written.
pub open spec fn open_at(
    corruptions: Seq<CorruptionInjection>,
    node: u64,
    rewritten: spec_fn(StorageRecord) -> bool,
    i: int,
) -> bool {
    0 <= i < corruptions.len() && corruptions[i].node == node && rewritten(corruptions[i].record)
        && (corruptions[i].outcome == CorruptionOutcome::Dormant || corruptions[i].outcome
        == CorruptionOutcome::Reported)
}

/// Some standing injection concerns a record of `node` that `rewritten` names.
pub open spec fn any_open(
    corruptions: Seq<CorruptionInjection>,
    node: u64,
    rewritten: spec_fn(StorageRecord) -> bool,
) -> bool {
    exists|i: int| #[trigger] open_at(corruptions, node, rewritten, i)
}

/// Some dormant injection on `(node, record)` is a member of a block fault.
pub open spec fn dormant_block(
    corruptions: Seq<CorruptionInjection>,
    node: u64,
    record: StorageRecord,
) -> bool {
    exists|i: int| #[trigger] dormant_at(corruptions, node, record, i) && corruptions[i].block
}

/// A scan read `(node, record)` back: the first dormant injection takes
/// `outcome`, further ones are covered by the same decision.
pub open spec fn resolved(
    corruptions: Seq<CorruptionInjection>,
    node: u64,
    record: StorageRecord,
    outcome: CorruptionOutcome,
) -> Seq<CorruptionInjection> {
    Seq::new(
        corruptions.len(),
        |i: int|
            if !dormant_at(corruptions, node, record, i) {
                corruptions[i]
            } else if exists|j: int| j < i && #[trigger] dormant_at(corruptions, node, record, j) {
                CorruptionInjection { outcome: CorruptionOutcome::CoDetected, ..corruptions[i] }
            } else {
                CorruptionInjection { outcome, ..corruptions[i] }
            },
    )
}

/// Every standing injection on a record of `node` that `rewritten` names is
/// recovered.
pub open spec fn recovered(
    corruptions: Seq<CorruptionInjection>,
    node: u64,
    rewritten: spec_fn(StorageRecord) -> bool,
) -> Seq<CorruptionInjection> {
    Seq::new(
        corruptions.len(),
        |i: int|
            if open_at(corruptions, node, rewritten, i) {
                CorruptionInjection { outcome: CorruptionOutcome::Recovered, ..corruptions[i] }
            } else {
                corruptions[i]
            },
    )
}

fn saturating_less(a: usize, b: usize) -> (rest: usize)
    ensures
        rest == less(a as nat, b as nat),
{
    if a >= b {
        a - b
    } else {
        0
    }
}

impl StorageWorld {
    /// An empty world. `empty` is the empty application state at
    /// `default_lanes` digest lanes.
    pub fn new(chunk_size: ChunkSize, default_lanes: u8, empty: AppState) -> (world: StorageWorld)
        ensures
            world@ == (WorldView {
                disks: Map::empty(),
                matchmakers: Map::empty(),
                sick_matchmakers: Set::empty(),
                lost_matchmakers: Set::empty(),
                cluster_size: 0,
                lane_count: None,
                default_lanes,
                empty: empty@,
                chunk_bytes: chunk_size@,
                injected: Seq::empty(),
                marks: Map::empty(),
                corruptions: Seq::empty(),
                parked: Set::empty(),
                parked_ids: Set::empty(),
                wiped: Set::empty(),
                seen: Set::empty(),
                unbudgeted: false,
                unrecoverable: Set::empty(),
                restart_epochs: Map::empty(),
                held: Set::empty(),
            }),
    {
        StorageWorld {
            disks: OrdMap::new(),
            matchmakers: OrdMap::new(),
            sick_matchmakers: OrdSet::new(),
            lost_matchmakers: OrdSet::new(),
            cluster_size: 0,
            lane_count: None,
            default_lanes,
            empty,
            chunk_size,
            injected: Vec::new(),
            marks: OrdMap::new(),
            corruptions: Vec::new(),
            parked: OrdSet::new(),
            parked_ids: OrdSet::new(),
            wiped: OrdSet::new(),
            seen: OrdSet::new(),
            unbudgeted: false,
            unrecoverable: OrdSet::new(),
            restart_epochs: OrdMap::new(),
            held: OrdSet::new(),
        }
    }

    /// Whether `key` was terminally parked.
    pub fn is_parked(&self, key: u64) -> (parked: bool)
        ensures
            parked == self@.parked.contains(key),
    {
        self.parked.contains(key)
    }

    /// Whether `key` came back on an empty disk.
    pub fn is_wiped(&self, key: u64) -> (wiped: bool)
        ensures
            wiped == self@.wiped.contains(key),
    {
        self.wiped.contains(key)
    }

    /// How many nodes other than `key` are terminally parked.
    pub fn parked_count_excluding(&self, key: u64) -> (count: usize)
        ensures
            count == self@.parked.remove(key).len(),
    {
        let all = self.parked.len();
        if self.parked.contains(key) {
            all - 1
        } else {
            assert(self@.parked.remove(key) =~= self@.parked);
            all
        }
    }

    /// Fix this run's digest-lane count (first caller wins). `empty` is the
    /// empty application state at that count.
    pub fn set_lane_count(&mut self, lane_count: u8, empty: AppState)
        ensures
            final(self)@ == if old(self)@.lane_count is None {
                WorldView { lane_count: Some(lane_count), empty: empty@, ..old(self)@ }
            } else {
                old(self)@
            },
    {
        if self.lane_count.is_none() {
            self.lane_count = Some(lane_count);
            self.empty = empty;
        }
    }

    /// The run's digest-lane count.
    pub fn lane_count(&self) -> (lanes: u8)
        ensures
            lanes == match self@.lane_count {
                Some(lanes) => lanes,
                None => self@.default_lanes,
            },
    {
        match self.lane_count {
            Some(lanes) => lanes,
            None => self.default_lanes,
        }
    }

    /// Record a sighting.
    pub fn see(&mut self, sighting: Sighting)
        ensures
            final(self)@ == old(self)@.see(sighting),
    {
        self.seen.insert(sighting);
    }

    /// Take the disk under `key` out of the world, born fresh if it was not
    /// there.
    pub fn take_disk(&mut self, key: u64) -> (disk: NodeDisk)
        ensures
            disk@ == old(self)@.disk_or_fresh(key),
            final(self)@ == (WorldView { disks: old(self)@.disks.remove(key), ..old(self)@ }),
    {
        match self.disks.remove(key) {
            Some(disk) => disk,
            None => NodeDisk::fresh(self.empty.copied()),
        }
    }

    /// Put a disk under `key`.
    pub fn put_disk(&mut self, key: u64, disk: NodeDisk)
        ensures
            final(self)@ == old(self)@.with_disk(key, disk@),
    {
        self.disks.insert(key, disk);
    }

    /// Declare the unbudgeted mode: injections may exceed the per-record
    /// budget, and each records the unrecoverable ground truth.
    pub fn set_unbudgeted(&mut self)
        ensures
            final(self)@ == (WorldView { unbudgeted: true, ..old(self)@ }),
    {
        self.unbudgeted = true;
    }

    /// Fix the cluster size (first caller wins); whether `n` agrees with it.
    pub fn set_cluster_size(&mut self, n: usize) -> (agrees: bool)
        ensures
            final(self)@ == if old(self)@.cluster_size == 0 {
                WorldView { cluster_size: n as nat, ..old(self)@ }
            } else {
                old(self)@
            },
            agrees == (final(self)@.cluster_size == n),
    {
        if self.cluster_size == 0 {
            self.cluster_size = n;
        }
        self.cluster_size == n
    }

    pub fn quorum(&self) -> (quorum: usize)
        ensures
            quorum == self@.quorum(),
    {
        self.cluster_size / 2 + 1
    }

    pub fn dead_budget(&self) -> (budget: usize)
        ensures
            budget == self@.dead_budget(),
    {
        saturating_less(self.cluster_size, self.quorum())
    }

    /// Whether `key`'s record at `slot` is marked.
    pub fn is_marked(&self, key: u64, slot: u64) -> (marked: bool)
        ensures
            marked == self@.marked(key, slot),
    {
        match self.marks.get(key) {
            Some(marks) => marks.contains(slot),
            None => false,
        }
    }

    fn marked_at(&self, slot: u64) -> (keys: OrdSet<u64>)
        ensures
            keys@ == self@.marked_at(slot),
    {
        let mut keys: OrdSet<u64> = OrdSet::new();
        let n = self.marks.len();
        let ghost dom = self.marks@.dom();
        let mut i: usize = 0;
        proof {
            lemma_walk(dom, 0);
            assert(keys@ =~= walked(dom, 0).filter(|key: u64| self@.marks[key].contains(slot)));
        }
        while i < n
            invariant
                i <= n,
                dom == self.marks@.dom(),
                n == dom.len(),
                n == ascending(dom).len(),
                lists(ascending(dom), dom),
                keys@ == walked(dom, i as int).filter(|key: u64| self@.marks[key].contains(slot)),
            decreases n - i,
        {
            proof {
                lemma_walk(dom, i as int);
            }
            if self.marks.value_at(i).contains(slot) {
                keys.insert(self.marks.key_at(i));
            }
            i = i + 1;
            assert(keys@ =~= walked(dom, i as int).filter(
                |key: u64| self@.marks[key].contains(slot),
            ));
        }
        proof {
            lemma_walk(dom, n as int);
        }
        keys
    }

    fn truncated_past(&self, slot: u64) -> (keys: OrdSet<u64>)
        ensures
            keys@ == self@.truncated_past(slot),
    {
        let mut keys: OrdSet<u64> = OrdSet::new();
        let n = self.disks.len();
        let ghost dom = self.disks@.dom();
        let mut i: usize = 0;
        proof {
            lemma_walk(dom, 0);
            assert(keys@ =~= walked(dom, 0).filter(|key: u64| self@.disks[key].first_slot > slot));
        }
        while i < n
            invariant
                i <= n,
                dom == self.disks@.dom(),
                n == dom.len(),
                n == ascending(dom).len(),
                lists(ascending(dom), dom),
                keys@ == walked(dom, i as int).filter(|key: u64| self@.disks[key].first_slot > slot),
            decreases n - i,
        {
            proof {
                lemma_walk(dom, i as int);
            }
            if self.disks.value_at(i).first_slot > slot {
                keys.insert(self.disks.key_at(i));
            }
            i = i + 1;
            assert(keys@ =~= walked(dom, i as int).filter(
                |key: u64| self@.disks[key].first_slot > slot,
            ));
        }
        proof {
            lemma_walk(dom, n as int);
        }
        keys
    }

    /// Clean live copies of the accepted record at `slot`.
    pub fn clean_copies(&self, slot: u64) -> (copies: usize)
        ensures
            copies == self@.clean_copies(slot),
    {
        let mut unclean = self.marked_at(slot);
        let truncated = self.truncated_past(slot);
        unclean.extend(&truncated);
        unclean.extend(&self.parked);
        saturating_less(self.cluster_size, unclean.len())
    }

    /// Clean copies left at `slot` if `key` lost its copy too.
    pub fn copies_without(&self, key: u64, slot: u64) -> (copies: usize)
        ensures
            copies == self@.copies_without(key, slot),
    {
        let loss: usize = if self.is_marked(key, slot) {
            0
        } else {
            1
        };
        saturating_less(self.clean_copies(slot), loss)
    }

    /// Nodes left to serve `slot` if `key` were parked.
    fn servers_without(&self, key: u64, slot: u64) -> (servers: usize)
        ensures
            servers == less(self@.cluster_size, self@.lost_at(slot).insert(key).len()),
    {
        let mut lost = self.marked_at(slot);
        lost.extend(&self.parked);
        lost.insert(key);
        saturating_less(self.cluster_size, lost.len())
    }

    /// Nodes left to serve `slot`.
    pub fn servers_of(&self, slot: u64) -> (servers: usize)
        ensures
            servers == less(self@.cluster_size, self@.lost_at(slot).len()),
    {
        let mut lost = self.marked_at(slot);
        lost.extend(&self.parked);
        saturating_less(self.cluster_size, lost.len())
    }

    /// Every slot marked on any node.
    pub fn marked_slots(&self) -> (slots: OrdSet<u64>)
        ensures
            forall|slot: u64| #[trigger] slots@.contains(slot) <==> self@.marked_anywhere(slot),
    {
        let mut slots: OrdSet<u64> = OrdSet::new();
        let n = self.marks.len();
        let ghost dom = self.marks@.dom();
        let mut i: usize = 0;
        proof {
            lemma_walk(dom, 0);
        }
        while i < n
            invariant
                i <= n,
                dom == self.marks@.dom(),
                n == dom.len(),
                n == ascending(dom).len(),
                lists(ascending(dom), dom),
                forall|slot: u64| #[trigger]
                    slots@.contains(slot) <==> exists|key: u64|
                        walked(dom, i as int).contains(key) && #[trigger] self@.marked(key, slot),
            decreases n - i,
        {
            proof {
                lemma_walk(dom, i as int);
            }
            let ghost key = ascending(dom)[i as int];
            let ghost before = slots@;
            slots.extend(self.marks.value_at(i));
            i = i + 1;
            assert forall|slot: u64| #[trigger] slots@.contains(slot) <==> exists|key: u64|
                walked(dom, i as int).contains(key) && #[trigger] self@.marked(key, slot) by {
                if slots@.contains(slot) {
                    if before.contains(slot) {
                        let k = choose|key: u64|
                            walked(dom, i - 1).contains(key) && #[trigger] self@.marked(key, slot);
                        assert(walked(dom, i as int).contains(k));
                    } else {
                        assert(self@.marked(key, slot));
                    }
                }
            }
        }
        proof {
            lemma_walk(dom, n as int);
            assert forall|slot: u64| #[trigger] slots@.contains(slot)
                <==> self@.marked_anywhere(slot) by {
                if self@.marked_anywhere(slot) {
                    let k = choose|key: u64| #[trigger] self@.marked(key, slot);
                    assert(walked(dom, n as int).contains(k));
                }
            }
        }
        slots
    }

    /// Whether terminally parking `key` is inside the dead-node budget and
    /// leaves every record it holds, and every record marked anywhere, a clean
    /// quorum elsewhere. Asked before a persistent corruption, so the
    /// availability cost is paid only where the cluster can absorb it.
    pub fn may_park(&self, key: u64) -> (may: bool)
        ensures
            may == self@.may_park(key),
    {
        if self.cluster_size == 0 {
            return false;
        }
        if self.parked.contains(key) {
            return true;
        }
        if self.parked.len() >= self.dead_budget() {
            return false;
        }
        let quorum = self.quorum();
        if let Some(disk) = self.disks.get(key) {
            let n = disk.accepted.len();
            let ghost dom = disk.accepted@.dom();
            let mut i: usize = 0;
            proof {
                lemma_walk(dom, 0);
            }
            while i < n
                invariant
                    i <= n,
                    self@.disks.contains_key(key),
                    self@.disks[key] == disk@,
                    dom == disk.accepted@.dom(),
                    n == dom.len(),
                    n == ascending(dom).len(),
                    lists(ascending(dom), dom),
                    quorum == self@.quorum(),
                    !self@.parked.contains(key),
                    forall|slot: u64| #[trigger]
                        walked(dom, i as int).contains(slot) ==> self@.copies_without(key, slot)
                            >= quorum,
                decreases n - i,
            {
                proof {
                    lemma_walk(dom, i as int);
                }
                let slot = disk.accepted.key_at(i);
                if self.copies_without(key, slot) < quorum {
                    assert(self@.disks[key].accepted.contains_key(slot));
                    return false;
                }
                i = i + 1;
            }
            proof {
                lemma_walk(dom, n as int);
                assert forall|slot: u64| #[trigger]
                    self@.disks[key].accepted.contains_key(slot) implies self@.copies_without(
                    key,
                    slot,
                ) >= quorum by {
                    assert(walked(dom, n as int).contains(slot));
                }
            }
        }
        let slots = self.marked_slots();
        let n = slots.len();
        let mut i: usize = 0;
        proof {
            lemma_walk(slots@, 0);
        }
        while i < n
            invariant
                i <= n,
                n == slots@.len(),
                n == ascending(slots@).len(),
                lists(ascending(slots@), slots@),
                quorum == self@.quorum(),
                !self@.parked.contains(key),
                forall|slot: u64| #[trigger] slots@.contains(slot) <==> self@.marked_anywhere(slot),
                forall|slot: u64| #[trigger]
                    walked(slots@, i as int).contains(slot) ==> less(
                        self@.cluster_size,
                        self@.lost_at(slot).insert(key).len(),
                    ) >= quorum,
            decreases n - i,
        {
            proof {
                lemma_walk(slots@, i as int);
            }
            let slot = slots.at(i);
            if self.servers_without(key, slot) < quorum {
                assert(self@.marked_anywhere(slot));
                return false;
            }
            i = i + 1;
        }
        proof {
            lemma_walk(slots@, n as int);
            assert forall|slot: u64| #[trigger] self@.marked_anywhere(slot) implies less(
                self@.cluster_size,
                self@.lost_at(slot).insert(key).len(),
            ) >= quorum by {
                assert(walked(slots@, n as int).contains(slot));
            }
        }
        true
    }

    /// Terminally park a node: detected, crashed, and it stays down.
    pub fn park(&mut self, key: u64, node: u64)
        ensures
            final(self)@ == old(self)@.park(key, node),
    {
        self.parked.insert(key);
        self.parked_ids.insert(node);
    }

    /// Wipe a restarted node's disk, where the dead-node budget allows it: the
    /// identity is parked for good, since an empty disk under it would deny
    /// what it voted for. Whether the disk was wiped.
    pub fn wipe(&mut self, key: u64, node: u64) -> (wiped: bool)
        ensures
            wiped == old(self)@.may_park(key),
            final(self)@ == old(self)@.wipe(key, node),
    {
        if !self.may_park(key) {
            return false;
        }
        self.park(key, node);
        self.wiped.insert(key);
        true
    }

    /// Whether a recoverable corruption of the record at `slot` on `key` is
    /// inside the per-record budget. The unbudgeted mode lifts the bound.
    pub fn may_corrupt_record(&self, key: u64, slot: u64) -> (may: bool)
        ensures
            may == self@.may_corrupt_record(key, slot),
    {
        if self.cluster_size == 0 {
            return false;
        }
        if self.unbudgeted {
            return true;
        }
        self.copies_without(key, slot) >= self.quorum()
    }
}

} // verus!
