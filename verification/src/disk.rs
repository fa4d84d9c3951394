//! One node's durable records and their health.
//!
//! The store holds *records, not bytes*: every way a record can fail to read
//! back is a first-class health value that the boot scan classifies.
use crate::ordered::{OrdMap, OrdSet, ascending, lemma_walk, lists, walked};
use crate::records::{
    AppState, AppView, Entry, EntryView, HardState, IntegrityFault, MetadataFault, Session,
    StorageRecord, WitnessStatus,
};
use vstd::prelude::*;

verus! {

/// How one durable record reads back.
#[derive(Clone, Copy, Debug, PartialEq, Eq, Structural)]
pub enum RecordHealth {
    /// The record verifies.
    Clean,
    /// The bytes fail their checksum (bit flip, latent sector error, torn
    /// write).
    Faulty,
    /// The checksum passes but the identity inside the checksummed region
    /// names a different record.
    Misdirected,
    /// The bytes are absent where the identifier says they must exist.
    Lost,
}

impl RecordHealth {
    /// The fault a reader of the record reports, `None` when it verifies.
    pub open spec fn fault(self) -> Option<IntegrityFault> {
        match self {
            RecordHealth::Clean => None,
            RecordHealth::Faulty => Some(IntegrityFault::ChecksumMismatch),
            RecordHealth::Misdirected => Some(IntegrityFault::Misdirected),
            RecordHealth::Lost => Some(IntegrityFault::LostWrite),
        }
    }

    pub fn integrity_fault(self) -> (fault: Option<IntegrityFault>)
        ensures
            fault == self.fault(),
    {
        match self {
            RecordHealth::Clean => None,
            RecordHealth::Faulty => Some(IntegrityFault::ChecksumMismatch),
            RecordHealth::Misdirected => Some(IntegrityFault::Misdirected),
            RecordHealth::Lost => Some(IntegrityFault::LostWrite),
        }
    }
}

/// The health of one accepted entry and of the identifier written beside it.
#[derive(Clone, Copy, Debug, PartialEq, Eq, Structural)]
pub struct SlotHealth {
    pub entry: RecordHealth,
    pub id: WitnessStatus,
}

impl View for SlotHealth {
    type V = SlotHealth;

    open spec fn view(&self) -> SlotHealth {
        *self
    }
}

impl SlotHealth {
    pub open spec fn sound() -> SlotHealth {
        SlotHealth { entry: RecordHealth::Clean, id: WitnessStatus::Present }
    }

    pub open spec fn is_clean(self) -> bool {
        self == SlotHealth::sound()
    }

    /// Whether the entry verifies and is witnessed.
    pub fn clean(self) -> (clean: bool)
        ensures
            clean == self.is_clean(),
    {
        self.entry == RecordHealth::Clean && self.id == WitnessStatus::Present
    }
}

/// A decided snapshot point: the slot of its marker, and the state every node
/// captured there.
pub struct SnapPoint {
    pub at: u64,
    pub state: AppState,
}

pub struct SnapPointView {
    pub at: u64,
    pub state: AppView,
}

impl View for SnapPoint {
    type V = SnapPointView;

    open spec fn view(&self) -> SnapPointView {
        SnapPointView { at: self.at, state: self.state@ }
    }
}

impl SnapPoint {
    pub fn copied(&self) -> (copy: SnapPoint)
        ensures
            copy@ == self@,
    {
        SnapPoint { at: self.at, state: self.state.copied() }
    }
}

pub open spec fn point_view(point: Option<SnapPoint>) -> Option<SnapPointView> {
    match point {
        Some(point) => Some(point@),
        None => None,
    }
}

/// One node's durable records: the scalars, the accepted log, the compaction
/// floor, the application state, and the health of each.
pub struct NodeDisk {
    pub hard_state: HardState,
    pub accepted: OrdMap<u64, Entry>,
    /// The first slot still retained: everything below it has been truncated.
    pub first_slot: u64,
    /// The durable application state.
    pub chain: AppState,
    /// Sessions sealed by truncated slots, each at the slot that claimed it.
    pub sealed: OrdMap<Session, u64>,
    /// A slot absent from this map is clean and witnessed.
    pub entry_health: OrdMap<u64, SlotHealth>,
    /// The two checksummed copies of the hard state.
    pub promise_health: (RecordHealth, RecordHealth),
    pub chosen_health: RecordHealth,
    pub truncation_health: RecordHealth,
    pub snapshot_health: RecordHealth,
    /// A fault of the whole store.
    pub meta_fault: Option<MetadataFault>,
    /// One pending transient read error, cleared when it surfaces.
    pub read_eio: Option<StorageRecord>,
    /// The latest decided snapshot point; only the latest is retained.
    pub snap_point: Option<SnapPoint>,
    /// The health of each chunk of the retained point; a chunk past the end is
    /// clean.
    pub snap_chunk_health: Vec<RecordHealth>,
}

#[verifier::ext_equal]
pub struct DiskView {
    pub hard_state: HardState,
    pub accepted: Map<u64, EntryView>,
    pub first_slot: u64,
    pub chain: AppView,
    pub sealed: Map<Session, u64>,
    pub entry_health: Map<u64, SlotHealth>,
    pub promise_health: (RecordHealth, RecordHealth),
    pub chosen_health: RecordHealth,
    pub truncation_health: RecordHealth,
    pub snapshot_health: RecordHealth,
    pub meta_fault: Option<MetadataFault>,
    pub read_eio: Option<StorageRecord>,
    pub snap_point: Option<SnapPointView>,
    pub snap_chunk_health: Seq<RecordHealth>,
}

impl View for NodeDisk {
    type V = DiskView;

    open spec fn view(&self) -> DiskView {
        DiskView {
            hard_state: self.hard_state,
            accepted: self.accepted@,
            first_slot: self.first_slot,
            chain: self.chain@,
            sealed: self.sealed@,
            entry_health: self.entry_health@,
            promise_health: self.promise_health,
            chosen_health: self.chosen_health,
            truncation_health: self.truncation_health,
            snapshot_health: self.snapshot_health,
            meta_fault: self.meta_fault,
            read_eio: self.read_eio,
            snap_point: point_view(self.snap_point),
            snap_chunk_health: self.snap_chunk_health@,
        }
    }
}

impl DiskView {
    /// A disk nothing has been written to, holding an empty application state.
    pub open spec fn fresh(empty: AppView) -> DiskView {
        DiskView {
            hard_state: HardState::initial(),
            accepted: Map::empty(),
            first_slot: 0,
            chain: empty,
            sealed: Map::empty(),
            entry_health: Map::empty(),
            promise_health: (RecordHealth::Clean, RecordHealth::Clean),
            chosen_health: RecordHealth::Clean,
            truncation_health: RecordHealth::Clean,
            snapshot_health: RecordHealth::Clean,
            meta_fault: None,
            read_eio: None,
            snap_point: None,
            snap_chunk_health: Seq::empty(),
        }
    }

    /// The health of the accepted record at `slot`.
    pub open spec fn slot_health(self, slot: u64) -> SlotHealth {
        if self.entry_health.contains_key(slot) {
            self.entry_health[slot]
        } else {
            SlotHealth::sound()
        }
    }

    /// Whether the disk holds a clean, witnessed record at `slot`.
    pub open spec fn holds_clean(self, slot: u64) -> bool {
        self.accepted.contains_key(slot) && self.slot_health(slot).is_clean()
    }

    /// The retained slots whose record reads back clean.
    pub open spec fn clean_slots(self) -> Set<u64> {
        self.accepted.dom().filter(|slot: u64| self.slot_health(slot).is_clean())
    }

    /// Whether the retained point was captured at `at`.
    pub open spec fn has_point(self, at: u64) -> bool {
        self.snap_point matches Some(point) && point.at == at
    }

    pub open spec fn chunk_clean(self, chunk: int) -> bool {
        0 <= chunk < self.snap_chunk_health.len() ==> self.snap_chunk_health[chunk]
            == RecordHealth::Clean
    }

    /// The health list long enough to hold `chunk`, one of `chunks`.
    pub open spec fn chunk_list(self, chunk: int, chunks: nat) -> Seq<RecordHealth> {
        if self.snap_chunk_health.len() <= chunk {
            padded_chunks(self.snap_chunk_health, chunks)
        } else {
            self.snap_chunk_health
        }
    }

    /// Whether every listed chunk of the retained point is clean.
    pub open spec fn chunks_clean(self) -> bool {
        forall|i: int|
            0 <= i < self.snap_chunk_health.len() ==> #[trigger] self.snap_chunk_health[i]
                == RecordHealth::Clean
    }

    /// A whole snapshot point from which a log retained from `floor` on replays
    /// contiguously: it must reach the slot just below the floor.
    pub open spec fn point_covering(self, floor: u64) -> Option<SnapPointView> {
        match self.snap_point {
            Some(point) if self.chunks_clean() && point.at + 1 >= floor => Some(point),
            _ => None,
        }
    }

    pub open spec fn restorable_point(self) -> Option<SnapPointView> {
        self.point_covering(self.first_slot)
    }

    /// A durable floor never stands above the durable chosen index.
    pub open spec fn floor_behind_chosen(self) -> bool {
        self.first_slot == 0 || (self.hard_state.chosen_index matches Some(chosen)
            && self.first_slot <= chosen + 1)
    }
}

/// Whether every entry of a health list is clean.
pub fn all_clean(health: &Vec<RecordHealth>) -> (clean: bool)
    ensures
        clean == forall|i: int|
            0 <= i < health@.len() ==> #[trigger] health@[i] == RecordHealth::Clean,
{
    let mut i: usize = 0;
    while i < health.len()
        invariant
            i <= health@.len(),
            forall|j: int| 0 <= j < i ==> #[trigger] health@[j] == RecordHealth::Clean,
        decreases health@.len() - i,
    {
        if health[i] != RecordHealth::Clean {
            return false;
        }
        i = i + 1;
    }
    true
}

impl NodeDisk {
    pub fn fresh(empty: AppState) -> (disk: NodeDisk)
        ensures
            disk@ == DiskView::fresh(empty@),
    {
        NodeDisk {
            hard_state: HardState::fresh(),
            accepted: OrdMap::new(),
            first_slot: 0,
            chain: empty,
            sealed: OrdMap::new(),
            entry_health: OrdMap::new(),
            promise_health: (RecordHealth::Clean, RecordHealth::Clean),
            chosen_health: RecordHealth::Clean,
            truncation_health: RecordHealth::Clean,
            snapshot_health: RecordHealth::Clean,
            meta_fault: None,
            read_eio: None,
            snap_point: None,
            snap_chunk_health: Vec::new(),
        }
    }

    /// Health of the accepted record at `slot` (clean and witnessed when
    /// untracked).
    pub fn slot_health(&self, slot: u64) -> (health: SlotHealth)
        ensures
            health == self@.slot_health(slot),
    {
        match self.entry_health.get(slot) {
            Some(health) => *health,
            None => SlotHealth { entry: RecordHealth::Clean, id: WitnessStatus::Present },
        }
    }

    pub fn holds_clean(&self, slot: u64) -> (clean: bool)
        ensures
            clean == self@.holds_clean(slot),
    {
        self.accepted.contains(slot) && self.slot_health(slot).clean()
    }

    /// The retained slots whose record reads back clean.
    pub fn clean_slots(&self) -> (slots: OrdSet<u64>)
        ensures
            slots@ == self@.clean_slots(),
    {
        let mut slots: OrdSet<u64> = OrdSet::new();
        let n = self.accepted.len();
        let ghost dom = self.accepted@.dom();
        let mut i: usize = 0;
        proof {
            lemma_walk(dom, 0);
            assert(slots@ =~= walked(dom, 0).filter(
                |slot: u64| self@.slot_health(slot).is_clean(),
            ));
        }
        while i < n
            invariant
                i <= n,
                dom == self.accepted@.dom(),
                n == dom.len(),
                n == ascending(dom).len(),
                lists(ascending(dom), dom),
                slots@ == walked(dom, i as int).filter(
                    |slot: u64| self@.slot_health(slot).is_clean(),
                ),
            decreases n - i,
        {
            proof {
                lemma_walk(dom, i as int);
            }
            let slot = self.accepted.key_at(i);
            if self.slot_health(slot).clean() {
                slots.insert(slot);
            }
            i = i + 1;
            assert(slots@ =~= walked(dom, i as int).filter(
                |slot: u64| self@.slot_health(slot).is_clean(),
            ));
        }
        proof {
            lemma_walk(dom, n as int);
        }
        slots
    }

    pub fn has_point(&self, at: u64) -> (held: bool)
        ensures
            held == self@.has_point(at),
    {
        match &self.snap_point {
            Some(point) => point.at == at,
            None => false,
        }
    }

    pub fn chunk_clean(&self, chunk: usize) -> (clean: bool)
        ensures
            clean == self@.chunk_clean(chunk as int),
    {
        chunk >= self.snap_chunk_health.len() || self.snap_chunk_health[chunk]
            == RecordHealth::Clean
    }

    /// A whole snapshot point that covers `floor`.
    pub fn point_covering(&self, floor: u64) -> (point: Option<SnapPoint>)
        ensures
            point_view(point) == self@.point_covering(floor),
    {
        match &self.snap_point {
            Some(point) => {
                if all_clean(&self.snap_chunk_health) && (floor == 0 || point.at >= floor - 1) {
                    Some(point.copied())
                } else {
                    None
                }
            },
            None => None,
        }
    }

    /// A whole snapshot point that covers the compaction floor.
    pub fn restorable_point(&self) -> (point: Option<SnapPoint>)
        ensures
            point_view(point) == self@.restorable_point(),
    {
        self.point_covering(self.first_slot)
    }

    pub fn floor_behind_chosen(&self) -> (ok: bool)
        ensures
            ok == self@.floor_behind_chosen(),
    {
        self.first_slot == 0 || match self.hard_state.chosen_index {
            Some(chosen) => self.first_slot - 1 <= chosen,
            None => false,
        }
    }

    /// List at least `chunks` chunks, the missing ones as clean.
    pub fn pad_chunks(&mut self, chunks: usize)
        ensures
            final(self)@ == (DiskView {
                snap_chunk_health: padded_chunks(old(self)@.snap_chunk_health, chunks as nat),
                ..old(self)@
            }),
    {
        while self.snap_chunk_health.len() < chunks
            invariant
                self.snap_chunk_health@.len() >= old(self)@.snap_chunk_health.len(),
                self.snap_chunk_health@.len() > old(self)@.snap_chunk_health.len()
                    ==> self.snap_chunk_health@.len() <= chunks,
                forall|i: int|
                    0 <= i < self.snap_chunk_health@.len() ==> #[trigger] self.snap_chunk_health@[i]
                        == if i < old(self)@.snap_chunk_health.len() {
                        old(self)@.snap_chunk_health[i]
                    } else {
                        RecordHealth::Clean
                    },
                self@ == (DiskView {
                    snap_chunk_health: self.snap_chunk_health@,
                    ..old(self)@
                }),
            decreases chunks - self.snap_chunk_health.len(),
        {
            self.snap_chunk_health.push(RecordHealth::Clean);
        }
        assert(self.snap_chunk_health@ =~= padded_chunks(
            old(self)@.snap_chunk_health,
            chunks as nat,
        ));
    }
}

impl NodeDisk {
    /// Set the health of one chunk of a point of `chunks` chunks.
    pub fn set_chunk(&mut self, chunk: usize, chunks: usize, health: RecordHealth)
        requires
            chunk < chunks,
        ensures
            final(self)@ == (DiskView {
                snap_chunk_health: old(self)@.chunk_list(chunk as int, chunks as nat).update(
                    chunk as int,
                    health,
                ),
                ..old(self)@
            }),
    {
        if self.snap_chunk_health.len() <= chunk {
            self.pad_chunks(chunks);
        }
        self.snap_chunk_health.set(chunk, health);
    }
}

/// A health list padded with clean entries up to `chunks`.
pub open spec fn padded_chunks(health: Seq<RecordHealth>, chunks: nat) -> Seq<RecordHealth> {
    Seq::new(
        if health.len() < chunks {
            chunks
        } else {
            health.len()
        },
        |i: int|
            if i < health.len() {
                health[i]
            } else {
                RecordHealth::Clean
            },
    )
}

} // verus!
