//! The boot scan: verify every durable record's read-back evidence before
//! anything reads the store.
//!
//! The scan resolves exactly two things by itself: a crash-truncatable tail is
//! discarded (never acknowledged to anyone), and a single bad hard-state copy
//! is repaired from its twin. A record whose identity survives is reported for
//! repair by peers; anything else crashes the node. It never truncates because a
//! record is corrupt: dropping the log from a faulty entry onward would silently
//! discard possibly-chosen records.
use crate::disk::{DiskView, NodeDisk, RecordHealth, SnapPointView, point_view};
use crate::flush::{rotted_chunks, rotted_names};
use crate::ledger::slot_set;
use crate::ordered::{OrdSet, ascending, lemma_walk, lists, walked};
use crate::records::{
    Ballot, CaseFamily, CorruptionVerdict, IntegrityFault, SlotCase, StorageError, StorageRecord,
    WitnessStatus,
};
use crate::storage::{BootEvidence, DurableStorage, EvidenceRow, EvidenceView, StorageView};
use crate::world::{CorruptionOutcome, Sighting, StorageWorld, WorldView};
use vstd::prelude::*;

verus! {

/// What the scan did to the application state.
#[derive(Clone, Copy, Debug, PartialEq, Eq, Structural)]
pub enum ScanApp {
    Untouched,
    /// Restored from the decided snapshot point captured at `at`.
    Restored { at: u64, floor: u64, applied_count: u64, chain_hash: u64 },
    /// Reset: replayed from the local log at floor zero, awaited from a peer
    /// otherwise.
    Reset { floor: u64 },
}

/// The scan's answer.
#[derive(Clone, Copy, Debug, PartialEq, Eq)]
pub struct Scanned {
    pub result: Result<(), StorageError>,
    pub app: ScanApp,
}

/// One retained record with the classifier's answer for it.
#[derive(Clone, Copy, Debug, PartialEq, Eq, Structural)]
pub struct ScanRow {
    pub row: EvidenceRow,
    pub case: SlotCase,
}

/// What the scan does about one record.
#[derive(Clone, Copy, Debug, PartialEq, Eq, Structural)]
pub enum Reaction {
    Keep,
    Discard,
    Report,
    Crash,
}

impl ScanRow {
    /// The crash-relevance split: a record whose identity is known is reported;
    /// one whose identity is lost too can only crash the node; a torn tail is
    /// discarded.
    pub open spec fn reacts(self) -> Reaction {
        match self.case.verdict {
            None => Reaction::Keep,
            Some(CorruptionVerdict::CrashTail) => Reaction::Discard,
            Some(_) => match self.case.family {
                CaseFamily::CorruptionBelowTail
                | CaseFamily::IdentifierFaulty
                | CaseFamily::LastEntryAmbiguity => Reaction::Report,
                _ => Reaction::Crash,
            },
        }
    }

    pub fn reaction(self) -> (reaction: Reaction)
        ensures
            reaction == self.reacts(),
    {
        match self.case.verdict {
            None => Reaction::Keep,
            Some(CorruptionVerdict::CrashTail) => Reaction::Discard,
            Some(_) => match self.case.family {
                CaseFamily::CorruptionBelowTail
                | CaseFamily::IdentifierFaulty
                | CaseFamily::LastEntryAmbiguity => Reaction::Report,
                _ => Reaction::Crash,
            },
        }
    }

    /// The detection channels a classified record exercises.
    pub open spec fn shows(self, sighting: Sighting) -> bool {
        self.case.verdict is Some && match sighting {
            Sighting::CorruptionBelowTail => self.case.family == CaseFamily::CorruptionBelowTail,
            Sighting::LastEntryAmbiguity => self.case.family == CaseFamily::LastEntryAmbiguity,
            Sighting::IdentifierLost => self.case.family == CaseFamily::IdentifierLostWithEntry,
            Sighting::BitFlipDetected => self.row.health.entry == RecordHealth::Faulty,
            Sighting::LostWriteDetected => self.row.health.entry == RecordHealth::Lost,
            Sighting::MisdirectedDetected => self.row.health.entry == RecordHealth::Misdirected,
            _ => false,
        }
    }

    /// The error a crash on this record surfaces. An identifier lost on a clean
    /// entry means the witness was lost, not the bytes.
    pub open spec fn error(self) -> StorageError {
        StorageError::Corruption {
            record: StorageRecord::Accepted(self.row.slot),
            fault: match self.row.health.entry.fault() {
                Some(fault) => fault,
                None => IntegrityFault::LostWrite,
            },
            verdict: match self.case.verdict {
                Some(verdict) => verdict,
                None => CorruptionVerdict::Corrupted,
            },
        }
    }
}

/// The retained records paired with the classifier's answers, in slot order.
pub open spec fn scan_rows(records: Seq<EvidenceRow>, cases: Seq<SlotCase>) -> Seq<ScanRow> {
    Seq::new(
        if records.len() <= cases.len() {
            records.len()
        } else {
            cases.len()
        },
        |i: int| ScanRow { row: records[i], case: cases[i] },
    )
}

/// The rows that call for one reaction, in slot order.
pub open spec fn rows_to(rows: Seq<ScanRow>, reaction: Reaction) -> Seq<ScanRow> {
    rows.filter(|r: ScanRow| r.reacts() == reaction)
}

pub open spec fn slots_of(rows: Seq<ScanRow>) -> Seq<u64> {
    Seq::new(rows.len(), |i: int| rows[i].row.slot)
}

impl WorldView {
    /// The scan read several accepted records back.
    pub open spec fn resolve_slots(
        self,
        node: u64,
        slots: Seq<u64>,
        outcome: CorruptionOutcome,
    ) -> WorldView
        decreases slots.len(),
    {
        if slots.len() == 0 {
            self
        } else {
            self.resolve_slots(node, slots.drop_last(), outcome).resolve(
                node,
                StorageRecord::Accepted(slots.last()),
                outcome,
            )
        }
    }

    /// The scan read several chunks of the point captured at `at` back.
    pub open spec fn resolve_chunks(self, node: u64, at: u64, chunks: Seq<u32>) -> WorldView
        decreases chunks.len(),
    {
        if chunks.len() == 0 {
            self
        } else {
            self.resolve_chunks(node, at, chunks.drop_last()).resolve(
                node,
                StorageRecord::SnapChunk(at, chunks.last()),
                CorruptionOutcome::Reported,
            )
        }
    }

    /// The disk under `key`, if there is one, replaced by `disk`.
    pub open spec fn mend_disk(self, key: u64, disk: DiskView) -> WorldView {
        if self.disks.contains_key(key) {
            self.with_disk(key, disk)
        } else {
            self
        }
    }

    pub open spec fn see_rows(self, rows: Seq<ScanRow>) -> WorldView {
        WorldView {
            seen: self.seen.union(
                Set::new(
                    |sighting: Sighting|
                        exists|i: int| 0 <= i < rows.len() && (#[trigger] rows[i]).shows(sighting),
                ),
            ),
            ..self
        }
    }
}

/// A handle and its world between two phases of a scan, with the crash decision
/// if one was taken.
pub struct Scan {
    pub storage: StorageView,
    pub world: WorldView,
    pub error: Option<StorageError>,
    pub app: ScanApp,
}

pub open spec fn corruption(record: StorageRecord, fault: IntegrityFault) -> StorageError {
    StorageError::Corruption { record, fault, verdict: CorruptionVerdict::Corrupted }
}

impl Scan {
    pub open spec fn crash(self, world: WorldView, error: StorageError) -> Scan {
        Scan { world, error: Some(error), ..self }
    }

    pub open spec fn go_on(self, world: WorldView) -> Scan {
        Scan { world, ..self }
    }

    /// A fault of the store itself reliably crashes, and is never recovered.
    pub open spec fn meta(self, e: EvidenceView) -> Scan {
        match e.meta {
            Some(fault) => self.crash(
                self.world.see(Sighting::MetadataCrashed).resolve(
                    self.storage.node_id,
                    StorageRecord::Store,
                    CorruptionOutcome::Crashed,
                ),
                StorageError::Metadata { fault },
            ),
            None => self,
        }
    }

    /// A transient read error crashes once; the world clears it, so the next
    /// boot reads clean.
    pub open spec fn read_error(self, e: EvidenceView) -> Scan {
        match e.read_eio {
            Some(record) => {
                let key = self.storage.key;
                let w = self.world.see(Sighting::ReadEioDetected);
                self.crash(
                    w.mend_disk(key, DiskView { read_eio: None, ..w.disks[key] }).resolve(
                        self.storage.node_id,
                        record,
                        CorruptionOutcome::Crashed,
                    ),
                    corruption(record, IntegrityFault::ReadError),
                )
            },
            None => self,
        }
    }

    /// One bad hard-state copy is repaired from its twin; with both bad the
    /// promise is unknowable, and the node stays down.
    pub open spec fn promise(self, e: EvidenceView) -> Scan {
        let key = self.storage.key;
        let node = self.storage.node_id;
        match (e.promise.0.fault(), e.promise.1.fault()) {
            (Some(fault), Some(_)) => self.crash(
                self.world.resolve(node, StorageRecord::Promise, CorruptionOutcome::Crashed).park(
                    key,
                    node,
                ),
                corruption(StorageRecord::Promise, fault),
            ),
            (None, None) => self,
            _ => {
                let w = self.world.see(Sighting::PromiseRepaired);
                self.go_on(
                    w.mend_disk(
                        key,
                        DiskView {
                            promise_health: (RecordHealth::Clean, RecordHealth::Clean),
                            ..w.disks[key]
                        },
                    ).resolve(node, StorageRecord::Promise, CorruptionOutcome::Repaired),
                )
            },
        }
    }

    /// The other scalars have no crash-tail leg: a mismatch is corruption.
    pub open spec fn scalar(self, health: RecordHealth, record: StorageRecord) -> Scan {
        match health.fault() {
            Some(fault) => self.crash(
                self.world.park(self.storage.key, self.storage.node_id).resolve(
                    self.storage.node_id,
                    record,
                    CorruptionOutcome::Crashed,
                ),
                corruption(record, fault),
            ),
            None => self,
        }
    }

    /// The snapshot point a lost application state is restored from.
    pub open spec fn restoring_point(self) -> Option<SnapPointView> {
        let floor = self.storage.boot.first_slot;
        if floor > 0 && self.world.disks.contains_key(self.storage.key) {
            self.world.disks[self.storage.key].point_covering(floor)
        } else {
            None
        }
    }

    /// A corrupted application snapshot is never served: it is restored from a
    /// whole snapshot point, or reset for replay or transfer.
    pub open spec fn snapshot(self, e: EvidenceView) -> Scan {
        let key = self.storage.key;
        let node = self.storage.node_id;
        let floor = self.storage.boot.first_slot;
        let w = self.world.see(Sighting::SnapshotDetected);
        if e.snapshot.fault() is None {
            self
        } else if let Some(point) = self.restoring_point() {
            Scan {
                storage: StorageView { application: point.state, ..self.storage },
                world: w.mend_disk(
                    key,
                    DiskView {
                        chain: point.state,
                        snapshot_health: RecordHealth::Clean,
                        ..w.disks[key]
                    },
                ).resolve(node, StorageRecord::Snapshot, CorruptionOutcome::Reported).note_recovered(
                    node,
                    StorageRecord::Snapshot,
                ),
                app: ScanApp::Restored {
                    at: point.at,
                    floor,
                    applied_count: point.state.applied_count,
                    chain_hash: point.state.chain_hash,
                },
                ..self
            }
        } else {
            let w = w.see(
                if floor == 0 {
                    Sighting::SnapshotResetLocal
                } else {
                    Sighting::SnapshotResetRemote
                },
            );
            Scan {
                storage: StorageView { application: w.empty, ..self.storage },
                world: w.mend_disk(
                    key,
                    DiskView {
                        chain: w.empty,
                        snapshot_health: RecordHealth::Clean,
                        ..w.disks[key]
                    },
                ).resolve(node, StorageRecord::Snapshot, CorruptionOutcome::Reported),
                app: ScanApp::Reset { floor },
                ..self
            }
        }
    }

    /// Rotted chunks of the retained point are reported for repair by peers.
    pub open spec fn chunks(self, e: EvidenceView) -> Scan {
        match e.snap_point {
            Some(at) => {
                let names = rotted_names(e.snap_chunks);
                Scan {
                    storage: StorageView {
                        faulty_chunks: if names.len() == 0 {
                            self.storage.faulty_chunks
                        } else {
                            Seq::new(names.len(), |i: int| (at, names[i]))
                        },
                        ..self.storage
                    },
                    world: self.world.resolve_chunks(self.storage.node_id, at, names),
                    ..self
                }
            },
            None => self,
        }
    }

    /// An unidentifiable record crashes the node, terminally; one decision
    /// covers every such record of the scan.
    pub open spec fn crashes(self, rows: Seq<ScanRow>) -> Scan {
        let crashed = rows_to(rows, Reaction::Crash);
        let node = self.storage.node_id;
        if crashed.len() == 0 {
            self
        } else {
            self.crash(
                self.world.park(self.storage.key, node).resolve(
                    node,
                    StorageRecord::Accepted(crashed[0].row.slot),
                    CorruptionOutcome::Crashed,
                ).resolve_slots(node, slots_of(crashed.skip(1)), CorruptionOutcome::CoDetected),
                crashed[0].error(),
            )
        }
    }

    /// A record whose identity is known is reported, and the node keeps
    /// serving.
    pub open spec fn reports(self, rows: Seq<ScanRow>) -> Scan {
        let reported = rows_to(rows, Reaction::Report);
        if reported.len() == 0 {
            self
        } else {
            Scan {
                storage: StorageView {
                    faulty_list: Seq::new(
                        reported.len(),
                        |i: int| (reported[i].row.slot, reported[i].row.ballot),
                    ),
                    ..self.storage
                },
                world: self.world.see(Sighting::FaultyReported).resolve_slots(
                    self.storage.node_id,
                    slots_of(reported),
                    CorruptionOutcome::Reported,
                ),
                ..self
            }
        }
    }

    /// The one legal discard: a crash-truncatable tail was never acknowledged.
    pub open spec fn discards(self, rows: Seq<ScanRow>) -> Scan {
        let slots = slots_of(rows_to(rows, Reaction::Discard));
        let key = self.storage.key;
        if slots.len() == 0 {
            self
        } else {
            let w = self.world.see(Sighting::TornTailDiscarded).clear_marks(key, slots.to_set());
            self.go_on(
                w.mend_disk(
                    key,
                    DiskView {
                        accepted: w.disks[key].accepted.remove_keys(slots.to_set()),
                        entry_health: w.disks[key].entry_health.remove_keys(slots.to_set()),
                        ..w.disks[key]
                    },
                ).resolve_slots(
                    self.storage.node_id,
                    slots,
                    CorruptionOutcome::DiscardedTail,
                ),
            )
        }
    }

    /// The log, classified.
    pub open spec fn log(self, e: EvidenceView, cases: Seq<SlotCase>) -> Scan {
        let rows = scan_rows(e.records, cases);
        let crashed = self.go_on(self.world.see_rows(rows)).crashes(rows);
        if crashed.error is Some {
            crashed
        } else {
            crashed.reports(rows).discards(rows)
        }
    }

    /// The store and its scalars, stopping at the first crash decision.
    pub open spec fn scalars(self, e: EvidenceView) -> Scan {
        let s = self.meta(e);
        if s.error is Some {
            s
        } else {
            let s = s.read_error(e);
            if s.error is Some {
                s
            } else {
                let s = s.promise(e);
                if s.error is Some {
                    s
                } else {
                    let s = s.scalar(e.chosen, StorageRecord::ChosenIndex);
                    if s.error is Some {
                        s
                    } else {
                        s.scalar(e.truncation, StorageRecord::Truncation)
                    }
                }
            }
        }
    }

    /// The whole scan, stopping at the first crash decision.
    pub open spec fn run(self, e: EvidenceView, cases: Seq<SlotCase>) -> Scan {
        let s = self.scalars(e);
        if s.error is Some {
            s
        } else {
            s.snapshot(e).chunks(e).log(e, cases)
        }
    }
}

impl StorageView {
    pub open spec fn boot_scan(self, w: WorldView, cases: Seq<SlotCase>) -> Scan {
        Scan {
            storage: StorageView { evidence: EvidenceView::none(), ..self },
            world: w,
            error: None,
            app: ScanApp::Untouched,
        }.run(self.evidence, cases)
    }
}

impl StorageWorld {
    fn resolve_slots(&mut self, node: u64, slots: &Vec<u64>, outcome: CorruptionOutcome)
        ensures
            final(self)@ == old(self)@.resolve_slots(node, slots@, outcome),
    {
        let mut i: usize = 0;
        assert(slots@.take(0) =~= Seq::<u64>::empty());
        while i < slots.len()
            invariant
                i <= slots@.len(),
                self@ == old(self)@.resolve_slots(node, slots@.take(i as int), outcome),
            decreases slots@.len() - i,
        {
            proof {
                assert(slots@.take(i + 1).drop_last() =~= slots@.take(i as int));
                assert(slots@.take(i + 1).last() == slots@[i as int]);
            }
            self.resolve_corruption(node, StorageRecord::Accepted(slots[i]), outcome);
            i = i + 1;
        }
        assert(slots@.take(i as int) =~= slots@);
    }

    fn resolve_chunks(&mut self, node: u64, at: u64, chunks: &Vec<u32>)
        ensures
            final(self)@ == old(self)@.resolve_chunks(node, at, chunks@),
    {
        let mut i: usize = 0;
        assert(chunks@.take(0) =~= Seq::<u32>::empty());
        while i < chunks.len()
            invariant
                i <= chunks@.len(),
                self@ == old(self)@.resolve_chunks(node, at, chunks@.take(i as int)),
            decreases chunks@.len() - i,
        {
            proof {
                assert(chunks@.take(i + 1).drop_last() =~= chunks@.take(i as int));
                assert(chunks@.take(i + 1).last() == chunks@[i as int]);
            }
            self.resolve_corruption(
                node,
                StorageRecord::SnapChunk(at, chunks[i]),
                CorruptionOutcome::Reported,
            );
            i = i + 1;
        }
        assert(chunks@.take(i as int) =~= chunks@);
    }

    fn see_rows(&mut self, rows: &Vec<ScanRow>)
        ensures
            final(self)@ == old(self)@.see_rows(rows@),
    {
        let mut i: usize = 0;
        assert(self@.seen =~= old(self)@.see_rows(rows@.take(0)).seen);
        while i < rows.len()
            invariant
                i <= rows@.len(),
                self@ == old(self)@.see_rows(rows@.take(i as int)),
            decreases rows@.len() - i,
        {
            let row = rows[i];
            let ghost before = self@;
            if row.case.verdict.is_some() {
                match row.case.family {
                    CaseFamily::CorruptionBelowTail => self.see(Sighting::CorruptionBelowTail),
                    CaseFamily::LastEntryAmbiguity => self.see(Sighting::LastEntryAmbiguity),
                    CaseFamily::IdentifierLostWithEntry => self.see(Sighting::IdentifierLost),
                    _ => {},
                }
                match row.row.health.entry {
                    RecordHealth::Faulty => self.see(Sighting::BitFlipDetected),
                    RecordHealth::Lost => self.see(Sighting::LostWriteDetected),
                    RecordHealth::Misdirected => self.see(Sighting::MisdirectedDetected),
                    RecordHealth::Clean => {},
                }
            }
            i = i + 1;
            proof {
                let now = old(self)@.see_rows(rows@.take(i as int)).seen;
                assert forall|s: Sighting| self@.seen.contains(s) <==> before.seen.contains(s)
                    || row.shows(s) by {}
                assert forall|s: Sighting| self@.seen.contains(s) <==> now.contains(s) by {
                    let was = rows@.take(i - 1);
                    let is = rows@.take(i as int);
                    if before.seen.contains(s) && !old(self)@.seen.contains(s) {
                        let j = choose|j: int| 0 <= j < was.len() && (#[trigger] was[j]).shows(s);
                        assert(is[j].shows(s));
                    }
                    if row.shows(s) {
                        assert(is[i - 1].shows(s));
                    }
                    if now.contains(s) && !old(self)@.seen.contains(s) {
                        let j = choose|j: int| 0 <= j < is.len() && (#[trigger] is[j]).shows(s);
                        if j < i - 1 {
                            assert(was[j].shows(s));
                        }
                    }
                }
                assert(self@.seen =~= now);
            }
        }
        assert(rows@.take(i as int) =~= rows@);
    }
}

/// The classified rows of a scan.
fn zip_rows(records: &Vec<EvidenceRow>, cases: &Vec<SlotCase>) -> (rows: Vec<ScanRow>)
    ensures
        rows@ == scan_rows(records@, cases@),
{
    let n = if records.len() <= cases.len() {
        records.len()
    } else {
        cases.len()
    };
    let mut rows: Vec<ScanRow> = Vec::new();
    let mut i: usize = 0;
    while i < n
        invariant
            i <= n,
            n <= records@.len(),
            n <= cases@.len(),
            n == scan_rows(records@, cases@).len(),
            rows@ == scan_rows(records@, cases@).take(i as int),
        decreases n - i,
    {
        rows.push(ScanRow { row: records[i], case: cases[i] });
        i = i + 1;
        assert(rows@ =~= scan_rows(records@, cases@).take(i as int));
    }
    assert(rows@ =~= scan_rows(records@, cases@));
    rows
}

/// The rows that call for one reaction.
fn pick_rows(rows: &Vec<ScanRow>, reaction: Reaction) -> (picked: Vec<ScanRow>)
    ensures
        picked@ == rows_to(rows@, reaction),
{
    let ghost pred = |r: ScanRow| r.reacts() == reaction;
    let mut picked: Vec<ScanRow> = Vec::new();
    let mut i: usize = 0;
    proof {
        reveal(Seq::filter);
        assert(rows@.take(0).filter(pred) =~= picked@);
    }
    while i < rows.len()
        invariant
            i <= rows@.len(),
            pred == (|r: ScanRow| r.reacts() == reaction),
            picked@ == rows@.take(i as int).filter(pred),
        decreases rows@.len() - i,
    {
        let row = rows[i];
        proof {
            reveal(Seq::filter);
            assert(rows@.take(i + 1).drop_last() =~= rows@.take(i as int));
            assert(rows@.take(i + 1).last() == row);
        }
        if row.reaction() == reaction {
            picked.push(row);
        }
        i = i + 1;
    }
    assert(rows@.take(i as int) =~= rows@);
    picked
}

/// The slots of `rows` from index `from` on.
fn row_slots(rows: &Vec<ScanRow>, from: usize) -> (slots: Vec<u64>)
    requires
        from <= rows@.len(),
    ensures
        slots@ == slots_of(rows@.skip(from as int)),
{
    let mut slots: Vec<u64> = Vec::new();
    let mut i = from;
    while i < rows.len()
        invariant
            from <= i <= rows@.len(),
            slots@ == slots_of(rows@.skip(from as int)).take(i - from),
        decreases rows@.len() - i,
    {
        slots.push(rows[i].row.slot);
        i = i + 1;
        assert(slots@ =~= slots_of(rows@.skip(from as int)).take(i - from));
    }
    assert(slots@ =~= slots_of(rows@.skip(from as int)));
    slots
}

impl DurableStorage {
    /// The scan so far, nothing decided yet.
    spec fn scanning(self, world: StorageWorld, app: ScanApp) -> Scan {
        Scan { storage: self@, world: world@, error: None, app }
    }

    fn scan_read_error(&mut self, world: &mut StorageWorld, record: StorageRecord)
        ensures
            final(self)@ == old(self)@,
            final(world)@ == {
                let key = old(self)@.key;
                let w = old(world)@.see(Sighting::ReadEioDetected);
                w.mend_disk(key, DiskView { read_eio: None, ..w.disks[key] }).resolve(
                    old(self)@.node_id,
                    record,
                    CorruptionOutcome::Crashed,
                )
            },
    {
        world.see(Sighting::ReadEioDetected);
        let ghost w = world@;
        if world.disks.contains(self.key) {
            let mut disk = world.take_disk(self.key);
            disk.read_eio = None;
            world.put_disk(self.key, disk);
            assert(world@.disks =~= w.mend_disk(
                self.key,
                DiskView { read_eio: None, ..w.disks[self.key] },
            ).disks);
        }
        world.resolve_corruption(self.node_id, record, CorruptionOutcome::Crashed);
    }

    /// The two hard-state copies.
    fn scan_promise(&self, world: &mut StorageWorld, e: &BootEvidence, Ghost(app): Ghost<ScanApp>) -> (
    error: Option<StorageError>)
        ensures
            ({
                let scan = self.scanning(*old(world), app).promise(e@);
                &&& final(world)@ == scan.world
                &&& error == scan.error
                &&& scan.storage == self@
                &&& scan.app == app
            }),
    {
        match (e.promise.0.integrity_fault(), e.promise.1.integrity_fault()) {
            (Some(fault), Some(_)) => {
                world.resolve_corruption(
                    self.node_id,
                    StorageRecord::Promise,
                    CorruptionOutcome::Crashed,
                );
                world.park(self.key, self.node_id);
                Some(
                    StorageError::Corruption {
                        record: StorageRecord::Promise,
                        fault,
                        verdict: CorruptionVerdict::Corrupted,
                    },
                )
            },
            (None, None) => None,
            _ => {
                world.see(Sighting::PromiseRepaired);
                let ghost w = world@;
                if world.disks.contains(self.key) {
                    let mut disk = world.take_disk(self.key);
                    disk.promise_health = (RecordHealth::Clean, RecordHealth::Clean);
                    world.put_disk(self.key, disk);
                    assert(world@.disks =~= w.mend_disk(
                        self.key,
                        DiskView {
                            promise_health: (RecordHealth::Clean, RecordHealth::Clean),
                            ..w.disks[self.key]
                        },
                    ).disks);
                }
                world.resolve_corruption(
                    self.node_id,
                    StorageRecord::Promise,
                    CorruptionOutcome::Repaired,
                );
                None
            },
        }
    }

    /// One scalar.
    fn scan_scalar(
        &self,
        world: &mut StorageWorld,
        health: RecordHealth,
        record: StorageRecord,
        Ghost(app): Ghost<ScanApp>,
    ) -> (error: Option<StorageError>)
        ensures
            ({
                let scan = self.scanning(*old(world), app).scalar(health, record);
                &&& final(world)@ == scan.world
                &&& error == scan.error
                &&& scan.storage == self@
                &&& scan.app == app
            }),
    {
        match health.integrity_fault() {
            Some(fault) => {
                world.park(self.key, self.node_id);
                world.resolve_corruption(self.node_id, record, CorruptionOutcome::Crashed);
                Some(
                    StorageError::Corruption {
                        record,
                        fault,
                        verdict: CorruptionVerdict::Corrupted,
                    },
                )
            },
            None => None,
        }
    }

    /// The application snapshot.
    fn scan_snapshot(&mut self, world: &mut StorageWorld, e: &BootEvidence) -> (app: ScanApp)
        ensures
            ({
                let scan = old(self).scanning(*old(world), ScanApp::Untouched).snapshot(e@);
                &&& final(self)@ == scan.storage
                &&& final(world)@ == scan.world
                &&& app == scan.app
                &&& scan.error is None
            }),
    {
        if e.snapshot.integrity_fault().is_none() {
            return ScanApp::Untouched;
        }
        let floor = self.boot.first_slot;
        let point = if floor > 0 {
            match world.disks.get(self.key) {
                Some(disk) => disk.point_covering(floor),
                None => None,
            }
        } else {
            None
        };
        assert(point_view(point) == old(self).scanning(
            *old(world),
            ScanApp::Untouched,
        ).restoring_point());
        world.see(Sighting::SnapshotDetected);
        match point {
            Some(point) => {
                let ghost w = world@;
                let ghost state = point.state@;
                let applied_count = point.state.applied_count;
                let chain_hash = point.state.chain_hash;
                if world.disks.contains(self.key) {
                    let mut disk = world.take_disk(self.key);
                    disk.chain = point.state.copied();
                    disk.snapshot_health = RecordHealth::Clean;
                    world.put_disk(self.key, disk);
                    assert(world@.disks =~= w.mend_disk(
                        self.key,
                        DiskView {
                            chain: state,
                            snapshot_health: RecordHealth::Clean,
                            ..w.disks[self.key]
                        },
                    ).disks);
                }
                world.resolve_corruption(
                    self.node_id,
                    StorageRecord::Snapshot,
                    CorruptionOutcome::Reported,
                );
                world.note_recovered(self.node_id, StorageRecord::Snapshot);
                self.application = point.state;
                ScanApp::Restored { at: point.at, floor, applied_count, chain_hash }
            },
            None => {
                if floor == 0 {
                    world.see(Sighting::SnapshotResetLocal);
                } else {
                    world.see(Sighting::SnapshotResetRemote);
                }
                let ghost w = world@;
                if world.disks.contains(self.key) {
                    let empty = world.empty.copied();
                    let mut disk = world.take_disk(self.key);
                    disk.chain = empty;
                    disk.snapshot_health = RecordHealth::Clean;
                    world.put_disk(self.key, disk);
                    assert(world@.disks =~= w.mend_disk(
                        self.key,
                        DiskView {
                            chain: w.empty,
                            snapshot_health: RecordHealth::Clean,
                            ..w.disks[self.key]
                        },
                    ).disks);
                }
                world.resolve_corruption(
                    self.node_id,
                    StorageRecord::Snapshot,
                    CorruptionOutcome::Reported,
                );
                self.application = world.empty.copied();
                ScanApp::Reset { floor }
            },
        }
    }

    /// The chunks of the retained snapshot point.
    fn scan_chunks(&mut self, world: &mut StorageWorld, e: &BootEvidence, Ghost(app): Ghost<ScanApp>)
        ensures
            ({
                let scan = old(self).scanning(*old(world), app).chunks(e@);
                &&& final(self)@ == scan.storage
                &&& final(world)@ == scan.world
                &&& scan.app == app
                &&& scan.error is None
            }),
    {
        if let Some(at) = e.snap_point {
            let names = rotted_chunks(&e.snap_chunks);
            world.resolve_chunks(self.node_id, at, &names);
            if names.len() > 0 {
                let mut list: Vec<(u64, u32)> = Vec::new();
                let mut i: usize = 0;
                let ghost want = Seq::new(names@.len(), |i: int| (at, names@[i]));
                while i < names.len()
                    invariant
                        i <= names@.len(),
                        want == Seq::new(names@.len(), |i: int| (at, names@[i])),
                        list@ == want.take(i as int),
                    decreases names@.len() - i,
                {
                    list.push((at, names[i]));
                    i = i + 1;
                    assert(list@ =~= want.take(i as int));
                }
                assert(list@ =~= want);
                self.faulty_chunks = list;
            }
        }
    }

    /// The crash decision on the log.
    fn scan_crashes(&self, world: &mut StorageWorld, rows: &Vec<ScanRow>, Ghost(app): Ghost<ScanApp>) -> (
    error: Option<StorageError>)
        ensures
            ({
                let scan = self.scanning(*old(world), app).crashes(rows@);
                &&& final(world)@ == scan.world
                &&& error == scan.error
                &&& scan.storage == self@
                &&& scan.app == app
            }),
    {
        let crashed = pick_rows(rows, Reaction::Crash);
        if crashed.len() == 0 {
            return None;
        }
        let first = crashed[0];
        world.park(self.key, self.node_id);
        world.resolve_corruption(
            self.node_id,
            StorageRecord::Accepted(first.row.slot),
            CorruptionOutcome::Crashed,
        );
        let rest = row_slots(&crashed, 1);
        world.resolve_slots(self.node_id, &rest, CorruptionOutcome::CoDetected);
        let fault = match first.row.health.entry.integrity_fault() {
            Some(fault) => fault,
            None => IntegrityFault::LostWrite,
        };
        let verdict = match first.case.verdict {
            Some(verdict) => verdict,
            None => CorruptionVerdict::Corrupted,
        };
        Some(
            StorageError::Corruption {
                record: StorageRecord::Accepted(first.row.slot),
                fault,
                verdict,
            },
        )
    }

    /// The recoverable records of the log.
    fn scan_reports(&mut self, world: &mut StorageWorld, rows: &Vec<ScanRow>, Ghost(app): Ghost<ScanApp>)
        ensures
            ({
                let scan = old(self).scanning(*old(world), app).reports(rows@);
                &&& final(self)@ == scan.storage
                &&& final(world)@ == scan.world
                &&& scan.app == app
                &&& scan.error is None
            }),
    {
        let reported = pick_rows(rows, Reaction::Report);
        if reported.len() == 0 {
            return;
        }
        world.see(Sighting::FaultyReported);
        let slots = row_slots(&reported, 0);
        assert(reported@.skip(0) =~= reported@);
        world.resolve_slots(self.node_id, &slots, CorruptionOutcome::Reported);
        let mut list: Vec<(u64, Ballot)> = Vec::new();
        let ghost want = Seq::new(
            reported@.len(),
            |i: int| (reported@[i].row.slot, reported@[i].row.ballot),
        );
        let mut i: usize = 0;
        while i < reported.len()
            invariant
                i <= reported@.len(),
                want == Seq::new(
                    reported@.len(),
                    |i: int| (reported@[i].row.slot, reported@[i].row.ballot),
                ),
                list@ == want.take(i as int),
            decreases reported@.len() - i,
        {
            list.push((reported[i].row.slot, reported[i].row.ballot));
            i = i + 1;
            assert(list@ =~= want.take(i as int));
        }
        assert(list@ =~= want);
        self.faulty_list = list;
    }

    /// The torn tail of the log.
    fn scan_discards(&self, world: &mut StorageWorld, rows: &Vec<ScanRow>, Ghost(app): Ghost<ScanApp>)
        ensures
            ({
                let scan = self.scanning(*old(world), app).discards(rows@);
                &&& final(world)@ == scan.world
                &&& scan.storage == self@
                &&& scan.app == app
                &&& scan.error is None
            }),
    {
        let picked = pick_rows(rows, Reaction::Discard);
        let slots = row_slots(&picked, 0);
        assert(picked@.skip(0) =~= picked@);
        if slots.len() == 0 {
            return;
        }
        world.see(Sighting::TornTailDiscarded);
        let set = slot_set(&slots);
        world.clear_marks(self.key, &set);
        let ghost w = world@;
        if world.disks.contains(self.key) {
            let mut disk = world.take_disk(self.key);
            drop_records(&mut disk, &set);
            world.put_disk(self.key, disk);
            assert(world@.disks =~= w.mend_disk(
                self.key,
                DiskView {
                    accepted: w.disks[self.key].accepted.remove_keys(slots@.to_set()),
                    entry_health: w.disks[self.key].entry_health.remove_keys(slots@.to_set()),
                    ..w.disks[self.key]
                },
            ).disks);
        }
        world.resolve_slots(self.node_id, &slots, CorruptionOutcome::DiscardedTail);
    }

    /// The slot, damage and witness of each retained record, for the
    /// classifier.
    pub fn scan_records(&self) -> (records: Vec<(u64, bool, WitnessStatus)>)
        ensures
            records@ == Seq::new(
                self@.evidence.records.len(),
                |i: int|
                    (
                        self@.evidence.records[i].slot,
                        self@.evidence.records[i].health.entry != RecordHealth::Clean,
                        self@.evidence.records[i].health.id,
                    ),
            ),
    {
        let ghost want = Seq::new(
            self@.evidence.records.len(),
            |i: int|
                (
                    self@.evidence.records[i].slot,
                    self@.evidence.records[i].health.entry != RecordHealth::Clean,
                    self@.evidence.records[i].health.id,
                ),
        );
        let mut records: Vec<(u64, bool, WitnessStatus)> = Vec::new();
        let mut i: usize = 0;
        while i < self.evidence.records.len()
            invariant
                i <= self.evidence.records@.len(),
                want == Seq::new(
                    self@.evidence.records.len(),
                    |i: int|
                        (
                            self@.evidence.records[i].slot,
                            self@.evidence.records[i].health.entry != RecordHealth::Clean,
                            self@.evidence.records[i].health.id,
                        ),
                ),
                records@ == want.take(i as int),
            decreases self.evidence.records@.len() - i,
        {
            let row = self.evidence.records[i];
            records.push((row.slot, row.health.entry != RecordHealth::Clean, row.health.id));
            i = i + 1;
            assert(records@ =~= want.take(i as int));
        }
        assert(records@ =~= want);
        records
    }

    fn scan_scalars(&mut self, world: &mut StorageWorld, e: &BootEvidence) -> (error: Option<
        StorageError,
    >)
        ensures
            ({
                let scan = old(self).scanning(*old(world), ScanApp::Untouched).scalars(e@);
                &&& final(self)@ == old(self)@
                &&& final(world)@ == scan.world
                &&& error == scan.error
                &&& scan.storage == old(self)@
                &&& scan.app == ScanApp::Untouched
            }),
    {
        if let Some(fault) = e.meta {
            world.see(Sighting::MetadataCrashed);
            world.resolve_corruption(
                self.node_id,
                StorageRecord::Store,
                CorruptionOutcome::Crashed,
            );
            return Some(StorageError::Metadata { fault });
        }
        if let Some(record) = e.read_eio {
            self.scan_read_error(world, record);
            return Some(
                StorageError::Corruption {
                    record,
                    fault: IntegrityFault::ReadError,
                    verdict: CorruptionVerdict::Corrupted,
                },
            );
        }
        if let Some(error) = self.scan_promise(world, e, Ghost(ScanApp::Untouched)) {
            return Some(error);
        }
        if let Some(error) = self.scan_scalar(
            world,
            e.chosen,
            StorageRecord::ChosenIndex,
            Ghost(ScanApp::Untouched),
        ) {
            return Some(error);
        }
        self.scan_scalar(
            world,
            e.truncation,
            StorageRecord::Truncation,
            Ghost(ScanApp::Untouched),
        )
    }

    fn scan_log(
        &mut self,
        world: &mut StorageWorld,
        e: &BootEvidence,
        cases: &Vec<SlotCase>,
        Ghost(app): Ghost<ScanApp>,
    ) -> (error: Option<StorageError>)
        ensures
            ({
                let scan = old(self).scanning(*old(world), app).log(e@, cases@);
                &&& final(self)@ == scan.storage
                &&& final(world)@ == scan.world
                &&& error == scan.error
                &&& scan.app == app
            }),
    {
        let rows = zip_rows(&e.records, cases);
        world.see_rows(&rows);
        if let Some(error) = self.scan_crashes(world, &rows, Ghost(app)) {
            return Some(error);
        }
        self.scan_reports(world, &rows, Ghost(app));
        self.scan_discards(world, &rows, Ghost(app));
        None
    }

    /// Scan this boot's evidence, given the log classifier's answer for each
    /// retained record in slot order. The evidence is consumed.
    #[verifier::spinoff_prover]
    pub fn boot_scan(&mut self, world: &mut StorageWorld, cases: &Vec<SlotCase>) -> (scanned: Scanned)
        ensures
            ({
                let scan = old(self)@.boot_scan(old(world)@, cases@);
                &&& final(self)@ == scan.storage
                &&& final(world)@ == scan.world
                &&& scanned.result == match scan.error {
                    Some(error) => Err(error),
                    None => Ok(()),
                }
                &&& scanned.app == scan.app
            }),
    {
        let mut e = BootEvidence::empty();
        std::mem::swap(&mut e, &mut self.evidence);
        if let Some(error) = self.scan_scalars(world, &e) {
            return Scanned { result: Err(error), app: ScanApp::Untouched };
        }
        let app = self.scan_snapshot(world, &e);
        self.scan_chunks(world, &e, Ghost(app));
        match self.scan_log(world, &e, cases, Ghost(app)) {
            Some(error) => Scanned { result: Err(error), app },
            None => Scanned { result: Ok(()), app },
        }
    }
}

/// Drop the accepted records of `slots` from a disk.
fn drop_records(disk: &mut NodeDisk, slots: &OrdSet<u64>)
    ensures
        final(disk)@ == (DiskView {
            accepted: old(disk)@.accepted.remove_keys(slots@),
            entry_health: old(disk)@.entry_health.remove_keys(slots@),
            ..old(disk)@
        }),
{
    let ghost d = disk@;
    let n = slots.len();
    let mut i: usize = 0;
    proof {
        lemma_walk(slots@, 0);
        assert(disk@.accepted =~= d.accepted.remove_keys(walked(slots@, 0)));
        assert(disk@.entry_health =~= d.entry_health.remove_keys(walked(slots@, 0)));
    }
    while i < n
        invariant
            i <= n,
            n == slots@.len(),
            n == ascending(slots@).len(),
            lists(ascending(slots@), slots@),
            disk@ == (DiskView {
                accepted: d.accepted.remove_keys(walked(slots@, i as int)),
                entry_health: d.entry_health.remove_keys(walked(slots@, i as int)),
                ..d
            }),
        decreases n - i,
    {
        proof {
            lemma_walk(slots@, i as int);
        }
        let slot = slots.at(i);
        disk.accepted.remove(slot);
        disk.entry_health.remove(slot);
        i = i + 1;
        proof {
            assert(disk@.accepted =~= d.accepted.remove_keys(walked(slots@, i as int)));
            assert(disk@.entry_health =~= d.entry_health.remove_keys(walked(slots@, i as int)));
        }
    }
    proof {
        lemma_walk(slots@, n as int);
    }
}

} // verus!
