//! One incarnation's handle onto its slice of the durable world.
//!
//! Reads are served from a boot-time image. Writes stage in the handle and
//! reach the world only on a sync, so a crash before the fsync loses the whole
//! un-synced batch. On every injected error the world decides, as recorded
//! ground truth, whether the effect persisted anyway: the persisted leg flushes
//! the whole stage before reporting the error, the lost leg flushes nothing.
use crate::disk::{DiskView, NodeDisk, RecordHealth, SlotHealth};
use crate::faults::StorageFaults;
use crate::ordered::{OrdMap, ascending, lemma_walk, lists, walked};
use crate::records::{
    AppState, AppView, Ballot, Entry, EntryView, HardState, MetadataFault, SealedSession,
    StorageRecord, copy_bytes,
};
use crate::stage::{Stage, StageView};
use crate::world::{StorageWorld, WorldView};
use vstd::prelude::*;

verus! {

/// One retained record as the boot scan sees it: its health, and the ballot a
/// recoverable classification reports.
#[derive(Clone, Copy, Debug, PartialEq, Eq, Structural)]
pub struct EvidenceRow {
    pub slot: u64,
    pub health: SlotHealth,
    pub ballot: Ballot,
}

/// A node's durable evidence as of one boot, consumed by the boot scan.
pub struct BootEvidence {
    pub records: Vec<EvidenceRow>,
    pub promise: (RecordHealth, RecordHealth),
    pub chosen: RecordHealth,
    pub truncation: RecordHealth,
    pub snapshot: RecordHealth,
    pub meta: Option<MetadataFault>,
    pub read_eio: Option<StorageRecord>,
    /// The slot of the retained snapshot point, if any.
    pub snap_point: Option<u64>,
    pub snap_chunks: Vec<RecordHealth>,
}

pub struct EvidenceView {
    pub records: Seq<EvidenceRow>,
    pub promise: (RecordHealth, RecordHealth),
    pub chosen: RecordHealth,
    pub truncation: RecordHealth,
    pub snapshot: RecordHealth,
    pub meta: Option<MetadataFault>,
    pub read_eio: Option<StorageRecord>,
    pub snap_point: Option<u64>,
    pub snap_chunks: Seq<RecordHealth>,
}

impl View for BootEvidence {
    type V = EvidenceView;

    open spec fn view(&self) -> EvidenceView {
        EvidenceView {
            records: self.records@,
            promise: self.promise,
            chosen: self.chosen,
            truncation: self.truncation,
            snapshot: self.snapshot,
            meta: self.meta,
            read_eio: self.read_eio,
            snap_point: self.snap_point,
            snap_chunks: self.snap_chunks@,
        }
    }
}

impl EvidenceView {
    /// No evidence of anything: what a fresh disk, or a finished scan, leaves.
    pub open spec fn none() -> EvidenceView {
        EvidenceView {
            records: Seq::empty(),
            promise: (RecordHealth::Clean, RecordHealth::Clean),
            chosen: RecordHealth::Clean,
            truncation: RecordHealth::Clean,
            snapshot: RecordHealth::Clean,
            meta: None,
            read_eio: None,
            snap_point: None,
            snap_chunks: Seq::empty(),
        }
    }

    pub open spec fn of(d: DiskView) -> EvidenceView {
        let slots = ascending(d.accepted.dom());
        EvidenceView {
            records: Seq::new(
                slots.len(),
                |i: int|
                    EvidenceRow {
                        slot: slots[i],
                        health: d.slot_health(slots[i]),
                        ballot: d.accepted[slots[i]].ballot,
                    },
            ),
            promise: d.promise_health,
            chosen: d.chosen_health,
            truncation: d.truncation_health,
            snapshot: d.snapshot_health,
            meta: d.meta_fault,
            read_eio: d.read_eio,
            snap_point: match d.snap_point {
                Some(point) => Some(point.at),
                None => None,
            },
            snap_chunks: match d.snap_point {
                Some(point) => d.snap_chunk_health,
                None => Seq::empty(),
            },
        }
    }
}

pub fn copy_health(health: &Vec<RecordHealth>) -> (copy: Vec<RecordHealth>)
    ensures
        copy@ == health@,
{
    let mut copy: Vec<RecordHealth> = Vec::new();
    let mut i: usize = 0;
    while i < health.len()
        invariant
            i <= health@.len(),
            copy@ == health@.take(i as int),
        decreases health@.len() - i,
    {
        copy.push(health[i]);
        i = i + 1;
        assert(copy@ =~= health@.take(i as int));
    }
    assert(copy@ =~= health@);
    copy
}

impl BootEvidence {
    pub fn empty() -> (evidence: BootEvidence)
        ensures
            evidence@ == EvidenceView::none(),
    {
        BootEvidence {
            records: Vec::new(),
            promise: (RecordHealth::Clean, RecordHealth::Clean),
            chosen: RecordHealth::Clean,
            truncation: RecordHealth::Clean,
            snapshot: RecordHealth::Clean,
            meta: None,
            read_eio: None,
            snap_point: None,
            snap_chunks: Vec::new(),
        }
    }

    /// Collect a disk's evidence.
    pub fn collect(disk: &NodeDisk) -> (evidence: BootEvidence)
        ensures
            evidence@ == EvidenceView::of(disk@),
    {
        let mut records: Vec<EvidenceRow> = Vec::new();
        let n = disk.accepted.len();
        let ghost rows = EvidenceView::of(disk@).records;
        let mut i: usize = 0;
        while i < n
            invariant
                i <= n,
                n == disk@.accepted.dom().len(),
                n == ascending(disk@.accepted.dom()).len(),
                rows == EvidenceView::of(disk@).records,
                records@ == rows.take(i as int),
            decreases n - i,
        {
            let slot = disk.accepted.key_at(i);
            records.push(
                EvidenceRow {
                    slot,
                    health: disk.slot_health(slot),
                    ballot: disk.accepted.value_at(i).ballot,
                },
            );
            i = i + 1;
            assert(records@ =~= rows.take(i as int));
        }
        assert(records@ =~= rows);
        let (snap_point, snap_chunks) = match &disk.snap_point {
            Some(point) => (Some(point.at), copy_health(&disk.snap_chunk_health)),
            None => (None, Vec::new()),
        };
        BootEvidence {
            records,
            promise: disk.promise_health,
            chosen: disk.chosen_health,
            truncation: disk.truncation_health,
            snapshot: disk.snapshot_health,
            meta: disk.meta_fault,
            read_eio: disk.read_eio,
            snap_point,
            snap_chunks,
        }
    }
}

/// What a boot reads back: the scalars, the floor, the sealed sessions, and
/// the accepted records that verify. The detector withholds the others.
pub struct BootImage {
    pub hard_state: HardState,
    pub first_slot: u64,
    pub sealed: Vec<SealedSession>,
    pub accepted: OrdMap<u64, Entry>,
}

pub struct BootView {
    pub hard_state: HardState,
    pub first_slot: u64,
    pub sealed: Seq<SealedSession>,
    pub accepted: Map<u64, EntryView>,
}

impl View for BootImage {
    type V = BootView;

    open spec fn view(&self) -> BootView {
        BootView {
            hard_state: self.hard_state,
            first_slot: self.first_slot,
            sealed: self.sealed@,
            accepted: self.accepted@,
        }
    }
}

impl BootView {
    pub open spec fn blank() -> BootView {
        BootView {
            hard_state: HardState::initial(),
            first_slot: 0,
            sealed: Seq::empty(),
            accepted: Map::empty(),
        }
    }

    pub open spec fn of(d: DiskView) -> BootView {
        let sessions = ascending(d.sealed.dom());
        BootView {
            hard_state: d.hard_state,
            first_slot: d.first_slot,
            sealed: Seq::new(
                sessions.len(),
                |i: int| SealedSession { session: sessions[i], slot: d.sealed[sessions[i]] },
            ),
            accepted: d.accepted.restrict(d.clean_slots()),
        }
    }
}

impl BootImage {
    pub fn blank() -> (image: BootImage)
        ensures
            image@ == BootView::blank(),
    {
        BootImage {
            hard_state: HardState::fresh(),
            first_slot: 0,
            sealed: Vec::new(),
            accepted: OrdMap::new(),
        }
    }

    pub fn read(disk: &NodeDisk) -> (image: BootImage)
        ensures
            image@ == BootView::of(disk@),
    {
        let mut sealed: Vec<SealedSession> = Vec::new();
        let n = disk.sealed.len();
        let ghost list = BootView::of(disk@).sealed;
        let mut i: usize = 0;
        while i < n
            invariant
                i <= n,
                n == disk@.sealed.dom().len(),
                n == ascending(disk@.sealed.dom()).len(),
                list == BootView::of(disk@).sealed,
                sealed@ == list.take(i as int),
            decreases n - i,
        {
            sealed.push(
                SealedSession { session: disk.sealed.key_at(i), slot: *disk.sealed.value_at(i) },
            );
            i = i + 1;
            assert(sealed@ =~= list.take(i as int));
        }
        assert(sealed@ =~= list);
        let mut accepted: OrdMap<u64, Entry> = OrdMap::new();
        let n = disk.accepted.len();
        let ghost dom = disk.accepted@.dom();
        let mut i: usize = 0;
        proof {
            lemma_walk(dom, 0);
            assert(accepted@ =~= disk@.accepted.restrict(
                walked(dom, 0).intersect(disk@.clean_slots()),
            ));
        }
        while i < n
            invariant
                i <= n,
                dom == disk.accepted@.dom(),
                n == dom.len(),
                n == ascending(dom).len(),
                lists(ascending(dom), dom),
                accepted@ == disk@.accepted.restrict(
                    walked(dom, i as int).intersect(disk@.clean_slots()),
                ),
            decreases n - i,
        {
            proof {
                lemma_walk(dom, i as int);
            }
            let slot = disk.accepted.key_at(i);
            if disk.slot_health(slot).clean() {
                accepted.insert(slot, disk.accepted.value_at(i).copied());
            }
            i = i + 1;
            assert(accepted@ =~= disk@.accepted.restrict(
                walked(dom, i as int).intersect(disk@.clean_slots()),
            ));
        }
        proof {
            lemma_walk(dom, n as int);
            assert(dom.intersect(disk@.clean_slots()) =~= disk@.clean_slots());
        }
        BootImage { hard_state: disk.hard_state, first_slot: disk.first_slot, sealed, accepted }
    }
}

/// One incarnation's handle onto its node's slice of the world.
pub struct DurableStorage {
    /// The node's key into the world.
    pub key: u64,
    /// The node's protocol id.
    pub node_id: u64,
    pub faults: StorageFaults,
    pub boot: BootImage,
    /// This incarnation's application state, staged transitions included.
    pub application: AppState,
    pub evidence: BootEvidence,
    /// The scan's recoverable classification: identity known, value lost.
    pub faulty_list: Vec<(u64, Ballot)>,
    /// The rotted chunks of the retained snapshot point.
    pub faulty_chunks: Vec<(u64, u32)>,
    pub stage: Stage,
}

pub struct StorageView {
    pub key: u64,
    pub node_id: u64,
    pub faults: StorageFaults,
    pub boot: BootView,
    pub application: AppView,
    pub evidence: EvidenceView,
    pub faulty_list: Seq<(u64, Ballot)>,
    pub faulty_chunks: Seq<(u64, u32)>,
    pub stage: StageView,
}

impl View for DurableStorage {
    type V = StorageView;

    open spec fn view(&self) -> StorageView {
        StorageView {
            key: self.key,
            node_id: self.node_id,
            faults: self.faults,
            boot: self.boot@,
            application: self.application@,
            evidence: self.evidence@,
            faulty_list: self.faulty_list@,
            faulty_chunks: self.faulty_chunks@,
            stage: self.stage@,
        }
    }
}

impl StorageView {
    /// A handle freshly opened on whatever a prior incarnation left durable.
    pub open spec fn opened(
        w: WorldView,
        key: u64,
        node_id: u64,
        faults: StorageFaults,
    ) -> StorageView {
        let seen = w.disks.contains_key(key);
        StorageView {
            key,
            node_id,
            faults,
            boot: if seen {
                BootView::of(w.disks[key])
            } else {
                BootView::blank()
            },
            application: if seen {
                w.disks[key].chain
            } else {
                w.empty
            },
            evidence: if seen {
                EvidenceView::of(w.disks[key])
            } else {
                EvidenceView::none()
            },
            faulty_list: Seq::empty(),
            faulty_chunks: Seq::empty(),
            stage: StageView::empty(),
        }
    }
}

impl DurableStorage {
    /// Open a handle, its read image seeded from any durable records a prior
    /// incarnation of the node left in the world.
    pub fn open(world: &StorageWorld, key: u64, node_id: u64, faults: StorageFaults) -> (storage:
        DurableStorage)
        ensures
            storage@ == StorageView::opened(world@, key, node_id, faults),
    {
        let (boot, application, evidence) = match world.disks.get(key) {
            Some(disk) => (
                BootImage::read(disk),
                disk.chain.copied(),
                BootEvidence::collect(disk),
            ),
            None => (BootImage::blank(), world.empty.copied(), BootEvidence::empty()),
        };
        DurableStorage {
            key,
            node_id,
            faults,
            boot,
            application,
            evidence,
            faulty_list: Vec::new(),
            faulty_chunks: Vec::new(),
            stage: Stage::empty(),
        }
    }

    /// The scalars this incarnation booted with.
    pub fn initial_state(&self) -> (hard_state: HardState)
        ensures
            hard_state == self@.boot.hard_state,
    {
        self.boot.hard_state
    }

    /// The record this incarnation booted with at `slot`; one that did not read
    /// back clean is not there.
    pub fn accepted(&self, slot: u64) -> (entry: Option<Entry>)
        ensures
            match entry {
                Some(entry) => self@.boot.accepted.contains_key(slot) && entry@
                    == self@.boot.accepted[slot],
                None => !self@.boot.accepted.contains_key(slot),
            },
    {
        match self.boot.accepted.get(slot) {
            Some(entry) => Some(entry.copied()),
            None => None,
        }
    }

    /// The first slot this incarnation booted with.
    pub fn first_slot(&self) -> (slot: u64)
        ensures
            slot == self@.boot.first_slot,
    {
        self.boot.first_slot
    }

    /// The highest slot it booted with a record at.
    pub fn last_slot(&self) -> (slot: Option<u64>)
        ensures
            match slot {
                Some(slot) => self@.boot.accepted.contains_key(slot) && forall|s: u64| #[trigger]
                    self@.boot.accepted.contains_key(s) ==> s <= slot,
                None => self@.boot.accepted == Map::<u64, EntryView>::empty(),
            },
    {
        self.boot.accepted.last_key()
    }

    /// The sessions sealed by truncated slots, as of this boot.
    pub fn sealed_sessions(&self) -> (sessions: Vec<SealedSession>)
        ensures
            sessions@ == self@.boot.sealed,
    {
        let mut sessions: Vec<SealedSession> = Vec::new();
        let mut i: usize = 0;
        while i < self.boot.sealed.len()
            invariant
                i <= self.boot.sealed@.len(),
                sessions@ == self.boot.sealed@.take(i as int),
            decreases self.boot.sealed@.len() - i,
        {
            sessions.push(self.boot.sealed[i]);
            i = i + 1;
            assert(sessions@ =~= self.boot.sealed@.take(i as int));
        }
        assert(sessions@ =~= self.boot.sealed@);
        sessions
    }

    /// The slots whose record kept its identity and lost its value, as the boot
    /// scan found them.
    pub fn faulty_entries(&self) -> (entries: &Vec<(u64, Ballot)>)
        ensures
            entries@ == self@.faulty_list,
    {
        &self.faulty_list
    }

    /// The rotted chunks of the retained snapshot point, as the boot scan found
    /// them.
    pub fn faulty_snap_chunks(&self) -> (chunks: &Vec<(u64, u32)>)
        ensures
            chunks@ == self@.faulty_chunks,
    {
        &self.faulty_chunks
    }

    /// The encoding of this incarnation's application state.
    pub fn snapshot(&self) -> (blob: Vec<u8>)
        ensures
            blob@ == self@.application.blob,
    {
        copy_bytes(&self.application.blob)
    }
}

} // verus!
