//! The write path: staging a record, syncing the batch, and the fault sites in
//! between.
//!
//! Two independent sites inject the fsyncgate ambiguity: one write may return
//! an I/O error, and the batch sync may fail. A third forces the rare torn tail:
//! a prefix of the batch's fresh appends lands without identifiers. The site
//! coins are the simulation's; what each outcome does is decided here.
use crate::disk::{DiskView, RecordHealth, SlotHealth};
use crate::flush::{
    FlushReport, FlushReportView, flush, flush_report, flush_world, lemma_take_contains,
};
use crate::ledger::slot_set;
use crate::ordered::{MapKey, ascending, lemma_lists_filter, lists};
use crate::records::{
    AppState, AppView, Ballot, Entry, EntryView, MustSync, SealedSession, StorageError,
    StorageRecord, WitnessStatus, WriteOutcome,
};
use crate::stage::{AppliedFact, Stage, StageView};
use crate::storage::{DurableStorage, StorageView};
use crate::world::{
    CorruptionInjection, CorruptionKind, CorruptionOutcome, InjectedFault, InjectedFaultKind,
    StorageWorld, WorldView,
};
use vstd::prelude::*;

verus! {

/// One record to stage.
pub enum StagedWrite {
    ConfigId(u64),
    Promise(Ballot),
    Accepted(u64, Entry),
    ChosenIndex(u64),
    /// A floor, with the sessions sealed below it.
    Truncation(u64, Vec<SealedSession>),
    /// A peer's snapshot: the chosen index it was taken at, the ballot it was
    /// served under, the state, and the peer's session ledger.
    Install(u64, Ballot, AppState, Vec<SealedSession>),
    /// One application transition, with the state it leads to.
    Apply(AppliedFact, AppState),
}

pub enum WriteView {
    ConfigId(u64),
    Promise(Ballot),
    Accepted(u64, EntryView),
    ChosenIndex(u64),
    Truncation(u64, Seq<SealedSession>),
    Install(u64, Ballot, AppView, Seq<SealedSession>),
    Apply(AppliedFact, AppView),
}

impl View for StagedWrite {
    type V = WriteView;

    open spec fn view(&self) -> WriteView {
        match self {
            StagedWrite::ConfigId(config_id) => WriteView::ConfigId(*config_id),
            StagedWrite::Promise(ballot) => WriteView::Promise(*ballot),
            StagedWrite::Accepted(slot, entry) => WriteView::Accepted(*slot, entry@),
            StagedWrite::ChosenIndex(slot) => WriteView::ChosenIndex(*slot),
            StagedWrite::Truncation(first, sealed) => WriteView::Truncation(*first, sealed@),
            StagedWrite::Install(chosen, ballot, state, sessions) => WriteView::Install(
                *chosen,
                *ballot,
                state@,
                sessions@,
            ),
            StagedWrite::Apply(fact, next) => WriteView::Apply(*fact, next@),
        }
    }
}

impl WriteView {
    /// The record a write is of.
    pub open spec fn record(self) -> StorageRecord {
        match self {
            WriteView::ConfigId(_) => StorageRecord::ConfigId,
            WriteView::Promise(_) => StorageRecord::Promise,
            WriteView::Accepted(slot, _) => StorageRecord::Accepted(slot),
            WriteView::ChosenIndex(_) => StorageRecord::ChosenIndex,
            WriteView::Truncation(_, _) => StorageRecord::Truncation,
            WriteView::Install(_, _, _, _) => StorageRecord::Snapshot,
            WriteView::Apply(fact, _) => StorageRecord::Application(fact.slot),
        }
    }

    /// An installed snapshot's floor, one past its chosen index, must exist.
    pub open spec fn fits(self) -> bool {
        self matches WriteView::Install(chosen, _, _, _) ==> chosen < u64::MAX
    }
}

/// The outcome of a write or a sync: what the node is told, and what a flush
/// on the way made durable.
pub struct Written {
    pub result: Result<(), StorageError>,
    pub report: Option<FlushReport>,
}

pub struct WrittenView {
    pub result: Result<(), StorageError>,
    pub report: Option<FlushReportView>,
}

impl View for Written {
    type V = WrittenView;

    open spec fn view(&self) -> WrittenView {
        WrittenView {
            result: self.result,
            report: match self.report {
                Some(report) => Some(report@),
                None => None,
            },
        }
    }
}

/// The coins of the write-error site.
#[derive(Clone, Copy, Debug, PartialEq, Eq, Structural)]
pub struct WriteCoins {
    pub fires: bool,
    /// Whether the effect lands despite the error.
    pub persisted: bool,
}

/// The coins of a sync.
#[derive(Clone, Copy, Debug, PartialEq, Eq, Structural)]
pub struct SyncCoins {
    /// The forced torn tail.
    pub force_torn: bool,
    pub fails: bool,
    /// Whether the batch lands despite the error.
    pub persisted: bool,
    /// Whether a lost batch lands as a torn prefix.
    pub torn: bool,
    /// Whether the last torn record's bytes are damaged too.
    pub torn_entry_faulty: bool,
}

/// A handle and its world after one operation, and what it returned.
pub struct Step {
    pub storage: StorageView,
    pub world: WorldView,
    pub written: WrittenView,
}

impl StorageView {
    /// The handle with one more write staged.
    pub open spec fn staged(self, write: WriteView) -> StorageView {
        let st = self.stage;
        match write {
            WriteView::ConfigId(config_id) => StorageView {
                stage: StageView { config_id: Some(config_id), ..st },
                ..self
            },
            WriteView::Promise(ballot) => StorageView {
                stage: StageView { ballot: Some(ballot), ..st },
                ..self
            },
            WriteView::Accepted(slot, entry) => StorageView {
                stage: StageView { accepted: st.accepted.insert(slot, entry), ..st },
                ..self
            },
            WriteView::ChosenIndex(slot) => StorageView {
                stage: StageView { chosen: Some(slot), ..st },
                ..self
            },
            WriteView::Truncation(first, sealed) => StorageView {
                stage: StageView { floor: st.raised_floor(first), sealed: st.sealed + sealed, ..st },
                ..self
            },
            WriteView::Install(chosen, ballot, state, sessions) => StorageView {
                stage: StageView {
                    sealed: st.sealed + sessions,
                    chosen: Some(chosen),
                    ballot: Some(ballot),
                    floor: st.raised_floor((chosen + 1) as u64),
                    snapshot: Some(state),
                    ..st
                },
                application: state,
                ..self
            },
            WriteView::Apply(fact, next) => StorageView {
                stage: StageView { applies: st.applies.push(fact), applied: Some(next), ..st },
                application: next,
                ..self
            },
        }
    }

    /// The handle with nothing staged.
    pub open spec fn drained(self) -> StorageView {
        StorageView { stage: StageView::empty(), ..self }
    }

    /// A flush of the whole stage, answered with `result`.
    pub open spec fn flush_step(self, w: WorldView, result: Result<(), StorageError>) -> Step {
        Step {
            storage: self.drained(),
            world: flush_world(w, self.key, self.node_id, self.stage),
            written: WrittenView {
                result,
                report: Some(flush_report(w.disk_or_fresh(self.key), self.stage, w.chunk_bytes)),
            },
        }
    }

    /// Staging `write` through the write-error site. The error is the same
    /// whether the effect landed or not: that is the ambiguity.
    pub open spec fn write_step(
        self,
        w: WorldView,
        now_ns: u64,
        write: WriteView,
        coins: WriteCoins,
    ) -> Step {
        let record = write.record();
        let slots = accepted_slots_of(record);
        let error = Err(StorageError::Io { record, outcome: WriteOutcome::Unknown });
        if !(self.faults.live(now_ns) && coins.fires && w.permits(self.key, slots)) {
            Step {
                storage: self.staged(write),
                world: w,
                written: WrittenView { result: Ok(()), report: None },
            }
        } else {
            let fault = InjectedFault {
                node: self.node_id,
                record,
                kind: InjectedFaultKind::WriteEio,
                persisted: coins.persisted,
            };
            let hit = w.permit_and_record(self.key, fault, slots);
            if coins.persisted {
                self.staged(write).flush_step(hit, error)
            } else {
                Step {
                    storage: self,
                    world: hit,
                    written: WrittenView { result: error, report: None },
                }
            }
        }
    }

    /// The staged slots above everything the node's disk holds: the only ones
    /// a torn batch can tear.
    pub open spec fn fresh_slots(self, w: WorldView) -> Set<u64> {
        self.stage.accepted.dom().filter(|slot: u64| above_durable(w, self.key, slot))
    }

    /// A torn flush would tear something: the first fresh append keeps a clean
    /// quorum without this copy.
    pub open spec fn tearable(self, w: WorldView) -> bool {
        let fresh = ascending(self.fresh_slots(w));
        fresh.len() > 0 && w.copies_without(self.key, fresh[0]) >= w.quorum()
    }

    /// The slots a torn batch leaves behind: a seeded prefix of the fresh
    /// appends, cut at the first one the budget refuses.
    pub open spec fn torn_slots(self, w: WorldView, draw: u64) -> Seq<u64> {
        let fresh = ascending(self.fresh_slots(w));
        if fresh.len() == 0 {
            fresh
        } else {
            fresh.take(permitted_prefix(w, self.key, fresh.take(1 + draw as int % fresh.len() as int)))
        }
    }

    /// The world after the crash tore the staged batch.
    pub open spec fn torn(self, w: WorldView, draw: u64, entry_faulty: bool) -> WorldView {
        let torn = self.torn_slots(w, draw);
        if torn.len() == 0 {
            w
        } else {
            let disk = w.disk_or_fresh(self.key);
            let torn_disk = DiskView {
                accepted: disk.accepted.union_prefer_right(
                    self.stage.accepted.restrict(torn.to_set()),
                ),
                entry_health: disk.entry_health.union_prefer_right(
                    torn_health(torn, entry_faulty),
                ),
                ..disk
            };
            let marked = w.with_disk(self.key, torn_disk).mark(self.key, torn.to_set());
            WorldView {
                corruptions: w.corruptions + Seq::new(
                    torn.len(),
                    |i: int| torn_injection(self.node_id, torn[i]),
                ),
                ..marked
            }
        }
    }

    /// A sync. A relaxed batch stays staged. A failed one flushes before the
    /// error on its durable leg; on its lost leg the stage stays un-flushed,
    /// and a torn prefix of it may have landed.
    pub open spec fn sync_step(
        self,
        w: WorldView,
        now_ns: u64,
        must_sync: MustSync,
        coins: SyncCoins,
        draw: u64,
    ) -> Step {
        let slots = ascending(self.stage.accepted.dom());
        let live = self.faults.live(now_ns);
        let forced = live && self.tearable(w) && coins.force_torn;
        let persisted = !forced && coins.persisted;
        let error = Err(
            StorageError::FsyncFailed {
                record: StorageRecord::Batch,
                outcome: WriteOutcome::Unknown,
            },
        );
        if must_sync == MustSync::Relaxed {
            Step {
                storage: self,
                world: w,
                written: WrittenView { result: Ok(()), report: None },
            }
        } else if !(self.stage.records().len() > 0 && live && (forced || coins.fails) && w.permits(
            self.key,
            slots,
        )) {
            self.flush_step(w, Ok(()))
        } else {
            let fault = InjectedFault {
                node: self.node_id,
                record: StorageRecord::Batch,
                kind: InjectedFaultKind::FsyncFailed,
                persisted,
            };
            let hit = w.permit_and_record(self.key, fault, slots);
            if persisted {
                self.flush_step(hit, error)
            } else {
                Step {
                    storage: self,
                    world: if forced || coins.torn {
                        self.torn(hit, draw, coins.torn_entry_faulty)
                    } else {
                        hit
                    },
                    written: WrittenView { result: error, report: None },
                }
            }
        }
    }
}

/// The accepted-log records a write of `record` would suppress if lost.
pub open spec fn accepted_slots_of(record: StorageRecord) -> Seq<u64> {
    match record {
        StorageRecord::Accepted(slot) => seq![slot],
        _ => seq![],
    }
}

/// `slot` is above every slot the node's disk holds.
pub open spec fn above_durable(w: WorldView, key: u64, slot: u64) -> bool {
    w.disks.contains_key(key) ==> forall|held: u64| #[trigger]
        w.disks[key].accepted.contains_key(held) ==> held < slot
}

/// How many leading slots the per-record budget lets go.
pub open spec fn permitted_prefix(w: WorldView, key: u64, slots: Seq<u64>) -> int
    decreases slots.len(),
{
    if slots.len() == 0 {
        0
    } else {
        let before = permitted_prefix(w, key, slots.drop_last());
        if before == slots.len() - 1 && w.copies_without(key, slots.last()) >= w.quorum() {
            slots.len() as int
        } else {
            before
        }
    }
}

/// The health a torn batch leaves: no identifiers, the last entry's bytes
/// possibly damaged.
pub open spec fn torn_health(torn: Seq<u64>, entry_faulty: bool) -> Map<u64, SlotHealth> {
    Map::new(
        |slot: u64| torn.contains(slot),
        |slot: u64|
            SlotHealth {
                entry: if slot == torn.last() && entry_faulty {
                    RecordHealth::Faulty
                } else {
                    RecordHealth::Clean
                },
                id: WitnessStatus::Absent,
            },
    )
}

pub open spec fn torn_injection(node: u64, slot: u64) -> CorruptionInjection {
    CorruptionInjection {
        node,
        record: StorageRecord::Accepted(slot),
        kind: CorruptionKind::TornTail,
        block: false,
        outcome: CorruptionOutcome::Dormant,
    }
}

impl StagedWrite {
    pub fn record(&self) -> (record: StorageRecord)
        ensures
            record == self@.record(),
    {
        match self {
            StagedWrite::ConfigId(_) => StorageRecord::ConfigId,
            StagedWrite::Promise(_) => StorageRecord::Promise,
            StagedWrite::Accepted(slot, _) => StorageRecord::Accepted(*slot),
            StagedWrite::ChosenIndex(_) => StorageRecord::ChosenIndex,
            StagedWrite::Truncation(_, _) => StorageRecord::Truncation,
            StagedWrite::Install(_, _, _, _) => StorageRecord::Snapshot,
            StagedWrite::Apply(fact, _) => StorageRecord::Application(fact.slot),
        }
    }
}

impl DurableStorage {
    /// Stage one record.
    fn stage_write(&mut self, write: StagedWrite)
        requires
            write@.fits(),
        ensures
            final(self)@ == old(self)@.staged(write@),
    {
        match write {
            StagedWrite::ConfigId(config_id) => {
                self.stage.config_id = Some(config_id);
            },
            StagedWrite::Promise(ballot) => {
                self.stage.ballot = Some(ballot);
            },
            StagedWrite::Accepted(slot, entry) => {
                self.stage.accepted.insert(slot, entry);
            },
            StagedWrite::ChosenIndex(slot) => {
                self.stage.chosen = Some(slot);
            },
            StagedWrite::Truncation(first, sealed) => {
                self.stage.raise_floor(first);
                extend_sealed(&mut self.stage.sealed, &sealed);
            },
            StagedWrite::Install(chosen, ballot, state, sessions) => {
                extend_sealed(&mut self.stage.sealed, &sessions);
                self.stage.chosen = Some(chosen);
                self.stage.ballot = Some(ballot);
                self.stage.raise_floor(chosen + 1);
                self.application = state.copied();
                self.stage.snapshot = Some(state);
            },
            StagedWrite::Apply(fact, next) => {
                self.application = next.copied();
                self.stage.applied = Some(next);
                self.stage.applies.push(fact);
            },
        }
    }

    /// Flush the whole stage through to the durable world: the fsync, and the
    /// persisted leg of an ambiguous fault.
    pub fn flush_stage(&mut self, world: &mut StorageWorld) -> (report: FlushReport)
        ensures
            final(self)@ == old(self)@.drained(),
            final(world)@ == flush_world(
                old(world)@,
                old(self)@.key,
                old(self)@.node_id,
                old(self)@.stage,
            ),
            report@ == flush_report(
                old(world)@.disk_or_fresh(old(self)@.key),
                old(self)@.stage,
                old(world)@.chunk_bytes,
            ),
    {
        let mut stage = Stage::empty();
        std::mem::swap(&mut stage, &mut self.stage);
        flush(world, self.key, self.node_id, stage)
    }

    /// The write-error site: whether this write fails, and if so whether its
    /// effect persisted.
    fn roll_write_eio(
        &self,
        world: &mut StorageWorld,
        now_ns: u64,
        record: StorageRecord,
        coins: WriteCoins,
    ) -> (rolled: Option<bool>)
        ensures
            rolled == if self@.faults.live(now_ns) && coins.fires && old(world)@.permits(
                self@.key,
                accepted_slots_of(record),
            ) {
                Some(coins.persisted)
            } else {
                None
            },
            final(world)@ == if self@.faults.live(now_ns) && coins.fires {
                old(world)@.permit_and_record(
                    self@.key,
                    InjectedFault {
                        node: self@.node_id,
                        record,
                        kind: InjectedFaultKind::WriteEio,
                        persisted: coins.persisted,
                    },
                    accepted_slots_of(record),
                )
            } else {
                old(world)@
            },
    {
        if !self.faults.active(now_ns) || !coins.fires {
            return None;
        }
        let mut slots: Vec<u64> = Vec::new();
        if let StorageRecord::Accepted(slot) = record {
            slots.push(slot);
        }
        assert(slots@ =~= accepted_slots_of(record));
        let fault = InjectedFault {
            node: self.node_id,
            record,
            kind: InjectedFaultKind::WriteEio,
            persisted: coins.persisted,
        };
        if world.permit_and_record(self.key, fault, &slots) {
            Some(coins.persisted)
        } else {
            None
        }
    }

    /// Stage one record through the write-error site. On the persisted leg the
    /// record is staged and the whole stage flushes through; on the lost leg
    /// nothing is staged. The error is identical either way.
    pub fn write_record(
        &mut self,
        world: &mut StorageWorld,
        now_ns: u64,
        write: StagedWrite,
        coins: WriteCoins,
    ) -> (written: Written)
        requires
            write@.fits(),
        ensures
            ({
                let step = old(self)@.write_step(old(world)@, now_ns, write@, coins);
                &&& final(self)@ == step.storage
                &&& final(world)@ == step.world
                &&& written@ == step.written
            }),
    {
        let record = write.record();
        match self.roll_write_eio(world, now_ns, record, coins) {
            None => {
                self.stage_write(write);
                Written { result: Ok(()), report: None }
            },
            Some(persisted) => {
                let mut report = None;
                if persisted {
                    self.stage_write(write);
                    report = Some(self.flush_stage(world));
                }
                Written {
                    result: Err(StorageError::Io { record, outcome: WriteOutcome::Unknown }),
                    report,
                }
            },
        }
    }

    /// The staged slots above everything the node's disk holds, in order.
    fn fresh(&self, world: &StorageWorld) -> (fresh: Vec<u64>)
        ensures
            fresh@ == ascending(self@.fresh_slots(world@)),
            lists(fresh@, self@.fresh_slots(world@)),
    {
        let ghost is_fresh = |slot: u64| above_durable(world@, self@.key, slot);
        let durable_max = match world.disks.get(self.key) {
            Some(disk) => disk.accepted.last_key(),
            None => None,
        };
        assert forall|slot: u64| #[trigger] is_fresh(slot) == match durable_max {
            Some(max) => slot > max,
            None => true,
        } by {
            let w = world@;
            let key = self@.key;
            if w.disks.contains_key(key) {
                let held = w.disks[key].accepted;
                match durable_max {
                    Some(max) => {
                        assert(held.contains_key(max));
                        assert forall|k: u64| #[trigger] held.contains_key(k) implies k
                            <= max by {
                            assert(k.rank() <= max.rank());
                        }
                    },
                    None => {
                        assert(held =~= Map::<u64, EntryView>::empty());
                    },
                }
            }
        }
        let slots = self.stage.accepted_slots();
        let mut fresh: Vec<u64> = Vec::new();
        let mut i: usize = 0;
        proof {
            reveal(Seq::filter);
            assert(slots@.take(0).filter(is_fresh) =~= fresh@);
        }
        while i < slots.len()
            invariant
                i <= slots@.len(),
                forall|slot: u64| #[trigger]
                    is_fresh(slot) == match durable_max {
                        Some(max) => slot > max,
                        None => true,
                    },
                fresh@ == slots@.take(i as int).filter(is_fresh),
            decreases slots@.len() - i,
        {
            let slot = slots[i];
            let above = match durable_max {
                Some(max) => slot > max,
                None => true,
            };
            proof {
                reveal(Seq::filter);
                assert(above == is_fresh(slot));
                assert(slots@.take(i + 1).drop_last() =~= slots@.take(i as int));
                assert(slots@.take(i + 1).last() == slot);
            }
            if above {
                fresh.push(slot);
            }
            i = i + 1;
        }
        proof {
            assert(slots@.take(i as int) =~= slots@);
            lemma_lists_filter(slots@, self@.stage.accepted.dom(), is_fresh);
            assert(self@.stage.accepted.dom().filter(is_fresh) =~= self@.fresh_slots(world@));
        }
        fresh
    }

    /// Whether a torn flush would tear anything right now. The budget is what
    /// makes the shape rare: a leader's first write of a slot has no clean
    /// copies elsewhere yet.
    pub fn tearable_stage(&self, world: &StorageWorld) -> (tearable: bool)
        ensures
            tearable == self@.tearable(world@),
    {
        let fresh = self.fresh(world);
        fresh.len() > 0 && world.copies_without(self.key, fresh[0]) >= world.quorum()
    }

    /// The torn leg of a lost sync: a prefix of the batch's fresh appends
    /// reaches the disk without identifiers. `draw` picks its length.
    pub fn torn_flush_with(&self, world: &mut StorageWorld, draw: u64, entry_faulty: bool)
        ensures
            final(world)@ == self@.torn(old(world)@, draw, entry_faulty),
    {
        let ghost w = world@;
        let key = self.key;
        let fresh = self.fresh(world);
        if fresh.len() == 0 {
            return;
        }
        let count = 1 + (draw % fresh.len() as u64) as usize;
        let quorum = world.quorum();
        let ghost cut = fresh@.take(count as int);
        let mut torn: Vec<u64> = Vec::new();
        let mut stopped = false;
        assert(cut.take(0) =~= Seq::<u64>::empty());
        let mut i: usize = 0;
        while i < count && !stopped
            invariant
                i <= count <= fresh@.len(),
                cut == fresh@.take(count as int),
                world@ == w,
                quorum == w.quorum(),
                key == self@.key,
                !stopped ==> torn@.len() == i && permitted_prefix(w, key, cut.take(i as int)) == i,
                stopped ==> permitted_prefix(w, key, cut) == torn@.len(),
                torn@.len() <= count,
                torn@ == fresh@.take(torn@.len() as int),
            decreases count - i + if stopped { 0int } else { 1int },
        {
            let slot = fresh[i];
            proof {
                assert(cut.take(i + 1).drop_last() =~= cut.take(i as int));
                assert(cut.take(i + 1).last() == slot);
            }
            if world.copies_without(key, slot) < quorum {
                stopped = true;
                proof {
                    lemma_prefix_stops(w, key, cut, i + 1);
                }
            } else {
                torn.push(slot);
                assert(torn@ =~= fresh@.take(torn@.len() as int));
                i = i + 1;
            }
        }
        proof {
            if !stopped {
                assert(cut.take(i as int) =~= cut);
            }
            assert(torn@ == self@.torn_slots(w, draw));
        }
        if torn.len() == 0 {
            return;
        }
        proof {
            assert forall|slot: u64| torn@.to_set().contains(slot) implies
                self@.stage.accepted.dom().contains(slot) by {
                let j = torn@.index_of(slot);
                assert(fresh@[j] == slot);
                assert(fresh@.contains(slot));
                assert(self@.fresh_slots(w).contains(slot));
            }
        }
        self.land_torn(world, &torn, entry_faulty);
    }

    /// Write the torn records to the disk, unwitnessed, and record the fault.
    fn land_torn(&self, world: &mut StorageWorld, torn: &Vec<u64>, entry_faulty: bool)
        requires
            torn@.len() > 0,
            torn@.to_set().subset_of(self@.stage.accepted.dom()),
        ensures
            final(world)@ == {
                let w = old(world)@;
                let disk = w.disk_or_fresh(self@.key);
                let torn_disk = DiskView {
                    accepted: disk.accepted.union_prefer_right(
                        self@.stage.accepted.restrict(torn@.to_set()),
                    ),
                    entry_health: disk.entry_health.union_prefer_right(
                        torn_health(torn@, entry_faulty),
                    ),
                    ..disk
                };
                let marked = w.with_disk(self@.key, torn_disk).mark(self@.key, torn@.to_set());
                WorldView {
                    corruptions: w.corruptions + Seq::new(
                        torn@.len(),
                        |i: int| torn_injection(self@.node_id, torn@[i]),
                    ),
                    ..marked
                }
            },
    {
        let ghost w = world@;
        let key = self.key;
        let last = torn[torn.len() - 1];
        let mut disk = world.take_disk(key);
        let ghost d0 = disk@;
        let ghost staged = self@.stage.accepted;
        let ghost health = torn_health(torn@, entry_faulty);
        let mut i: usize = 0;
        proof {
            assert(disk@.accepted =~= d0.accepted.union_prefer_right(
                staged.restrict(torn@.take(0).to_set()),
            ));
            assert(disk@.entry_health =~= d0.entry_health.union_prefer_right(
                health.restrict(torn@.take(0).to_set()),
            ));
        }
        while i < torn.len()
            invariant
                i <= torn@.len(),
                last == torn@.last(),
                staged == self@.stage.accepted,
                health == torn_health(torn@, entry_faulty),
                torn@.to_set().subset_of(staged.dom()),
                disk@ == (DiskView {
                    accepted: disk@.accepted,
                    entry_health: disk@.entry_health,
                    ..d0
                }),
                disk@.accepted == d0.accepted.union_prefer_right(
                    staged.restrict(torn@.take(i as int).to_set()),
                ),
                disk@.entry_health == d0.entry_health.union_prefer_right(
                    health.restrict(torn@.take(i as int).to_set()),
                ),
            decreases torn@.len() - i,
        {
            let slot = torn[i];
            proof {
                assert(torn@.to_set().contains(slot));
                assert forall|s: u64| torn@.take(i + 1).contains(s) <==> torn@.take(
                    i as int,
                ).contains(s) || s == slot by {
                    lemma_take_contains(torn@, i as int, s);
                }
            }
            if let Some(entry) = self.stage.accepted.get(slot) {
                disk.accepted.insert(slot, entry.copied());
            }
            disk.entry_health.insert(
                slot,
                SlotHealth {
                    entry: if slot == last && entry_faulty {
                        RecordHealth::Faulty
                    } else {
                        RecordHealth::Clean
                    },
                    id: WitnessStatus::Absent,
                },
            );
            i = i + 1;
            proof {
                assert(disk@.accepted =~= d0.accepted.union_prefer_right(
                    staged.restrict(torn@.take(i as int).to_set()),
                ));
                assert(disk@.entry_health =~= d0.entry_health.union_prefer_right(
                    health.restrict(torn@.take(i as int).to_set()),
                ));
            }
        }
        proof {
            assert(torn@.take(i as int) =~= torn@);
            assert(health.restrict(torn@.to_set()) =~= health);
        }
        let ghost d1 = disk@;
        world.put_disk(key, disk);
        assert(world@.disks =~= w.with_disk(key, d1).disks);
        let marked = slot_set(torn);
        world.mark(key, &marked);
        let ghost w1 = world@;
        let mut i: usize = 0;
        assert(world@.corruptions =~= w.corruptions + Seq::new(
            0,
            |j: int| torn_injection(self@.node_id, torn@[j]),
        ));
        while i < torn.len()
            invariant
                i <= torn@.len(),
                world@ == (WorldView { corruptions: world@.corruptions, ..w1 }),
                world@.corruptions == w.corruptions + Seq::new(
                    i as nat,
                    |j: int| torn_injection(self@.node_id, torn@[j]),
                ),
            decreases torn@.len() - i,
        {
            world.note_corruption(
                CorruptionInjection {
                    node: self.node_id,
                    record: StorageRecord::Accepted(torn[i]),
                    kind: CorruptionKind::TornTail,
                    block: false,
                    outcome: CorruptionOutcome::Dormant,
                },
            );
            i = i + 1;
            assert(world@.corruptions =~= w.corruptions + Seq::new(
                i as nat,
                |j: int| torn_injection(self@.node_id, torn@[j]),
            ));
        }
    }
}

/// Once a slot is refused, the permitted prefix is cut there.
proof fn lemma_prefix_stops(w: WorldView, key: u64, slots: Seq<u64>, i: int)
    requires
        0 < i <= slots.len(),
        permitted_prefix(w, key, slots.take(i - 1)) == i - 1,
        w.copies_without(key, slots[i - 1]) < w.quorum(),
    ensures
        permitted_prefix(w, key, slots) == i - 1,
    decreases slots.len(),
{
    if i == slots.len() {
        assert(slots.drop_last() =~= slots.take(i - 1));
    } else {
        assert(slots.drop_last().take(i - 1) =~= slots.take(i - 1));
        lemma_prefix_stops(w, key, slots.drop_last(), i);
    }
}

fn extend_sealed(list: &mut Vec<SealedSession>, more: &Vec<SealedSession>)
    ensures
        final(list)@ == old(list)@ + more@,
{
    let mut i: usize = 0;
    assert(list@ =~= old(list)@ + more@.take(0));
    while i < more.len()
        invariant
            i <= more@.len(),
            list@ == old(list)@ + more@.take(i as int),
        decreases more@.len() - i,
    {
        list.push(more[i]);
        i = i + 1;
        assert(list@ =~= old(list)@ + more@.take(i as int));
    }
    assert(more@.take(i as int) =~= more@);
}

} // verus!
