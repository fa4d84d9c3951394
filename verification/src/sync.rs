//! The store as its driver uses it: one method per operation of the durable
//! storage seam.
use crate::disk::{DiskView, RecordHealth, SnapPoint, SnapPointView, all_clean};
use crate::draws::sim_draw;
use crate::ordered::ascending;
use crate::records::{
    AppState, AppView, Ballot, ChunkSize, CorruptionVerdict, Entry, IntegrityFault, MustSync, SealedSession,
    StorageError, StorageRecord, WriteOutcome, chunks_of,
};
use crate::stage::{AppliedFact, CommandKind, StageView};
use crate::storage::{DurableStorage, StorageView};
use crate::world::{InjectedFault, InjectedFaultKind, StorageWorld, WorldView};
use crate::writes::{StagedWrite, Step, SyncCoins, WriteCoins, WriteView, Written, WrittenView};
use vstd::prelude::*;

verus! {

impl StorageView {
    /// The handle and world after staging `write`, as [`StorageView::write_step`]
    /// has them.
    pub open spec fn writes(
        self,
        w: WorldView,
        now_ns: u64,
        write: WriteView,
        coins: WriteCoins,
        after: StorageView,
        world: WorldView,
        written: WrittenView,
    ) -> bool {
        let step = self.write_step(w, now_ns, write, coins);
        after == step.storage && world == step.world && written == step.written
    }

    /// What applying a command comes to: already folded in, or one more
    /// transition to stage.
    pub open spec fn replays(self, slot: u64) -> bool {
        self.application.applied_slot() matches Some(applied) && slot <= applied
    }

    /// Applying a command at `slot` that leads to `next`: a command that is
    /// already folded in changes nothing.
    pub open spec fn apply_step(
        self,
        w: WorldView,
        now_ns: u64,
        slot: u64,
        command: u64,
        kind: CommandKind,
        next: AppView,
        coins: WriteCoins,
    ) -> Step {
        if self.replays(slot) {
            Step {
                storage: self,
                world: w,
                written: WrittenView { result: Ok(()), report: None },
            }
        } else {
            let fact = AppliedFact {
                slot,
                index: next.applied_count,
                command,
                kind,
                state: next.chain_hash,
            };
            self.write_step(w, now_ns, WriteView::Apply(fact, next), coins)
        }
    }

    /// Nothing is staged that a peer may have been told of.
    pub open spec fn relaxes_safely(self) -> bool {
        self.stage.ballot is None && self.stage.accepted.dom().len() == 0
            && self.stage.config_id is None
    }

    /// The handle with the snapshot point at `at` captured.
    pub open spec fn pointed(self, at: u64) -> StorageView {
        StorageView {
            stage: StageView {
                snap_point: Some(SnapPointView { at, state: self.application }),
                ..self.stage
            },
            ..self
        }
    }

    /// The slot of the latest snapshot point, staged or durable.
    pub open spec fn latest_point(self, w: WorldView) -> Option<u64> {
        match self.stage.snap_point {
            Some(point) => Some(point.at),
            None => if w.disks.contains_key(self.key) {
                match w.disks[self.key].snap_point {
                    Some(point) => Some(point.at),
                    None => None,
                }
            } else {
                None
            },
        }
    }

    /// The handle restored from its snapshot point, and the slot of that point.
    pub open spec fn restored(self, w: WorldView) -> (StorageView, Option<u64>) {
        match self.restore_candidate(w) {
            Some(point) => (
                StorageView {
                    application: point.state,
                    stage: StageView { snapshot: Some(point.state), ..self.stage },
                    ..self
                },
                Some(point.at),
            ),
            None => (self, None),
        }
    }

    /// The next slot the application expects.
    pub open spec fn expected_slot(self) -> u64 {
        self.application.applied_count
    }

    /// The point the handle would restore from: whole, covering the floor, and
    /// ahead of the application.
    pub open spec fn restore_candidate(self, w: WorldView) -> Option<SnapPointView> {
        if !w.disks.contains_key(self.key) {
            None
        } else {
            match w.disks[self.key].restorable_point() {
                Some(point) if !(self.application.applied_slot() matches Some(applied) && applied
                    >= point.at) => Some(point),
                _ => None,
            }
        }
    }
}

/// The bytes of one chunk of a blob.
pub open spec fn chunk_bytes_of(blob: Seq<u8>, chunk: int, chunk_bytes: nat) -> Seq<u8> {
    let start = chunk * chunk_bytes as int;
    let end = if start + chunk_bytes <= blob.len() {
        start + chunk_bytes
    } else {
        blob.len() as int
    };
    blob.subrange(start, end)
}

/// `chunk` names a chunk of the point the node retains at `at`.
pub open spec fn retains_chunk(w: WorldView, key: u64, at: u64, chunk: u32) -> bool {
    w.disks.contains_key(key) && w.disks[key].has_point(at) && chunk as int * w.chunk_bytes
        < w.disks[key].snap_point->0.state.blob.len()
}

/// What a read of one chunk returns: a rotted chunk answers nothing.
pub open spec fn chunk_read(w: WorldView, key: u64, at: u64, chunk: u32) -> Option<Seq<u8>> {
    if retains_chunk(w, key, at, chunk) && w.disks[key].chunk_clean(chunk as int) {
        Some(
            chunk_bytes_of(w.disks[key].snap_point->0.state.blob, chunk as int, w.chunk_bytes),
        )
    } else {
        None
    }
}

/// A chunk received from a peer is installed only if it is byte-identical to
/// the decided state.
pub open spec fn chunk_matches(w: WorldView, key: u64, at: u64, chunk: u32, bytes: Seq<u8>) -> bool {
    retains_chunk(w, key, at, chunk) && bytes == chunk_bytes_of(
        w.disks[key].snap_point->0.state.blob,
        chunk as int,
        w.chunk_bytes,
    )
}

/// The disk with one chunk re-written.
pub open spec fn rewritten_chunk(d: DiskView, chunk: int, chunk_bytes: nat) -> DiskView {
    let chunks = chunks_of(d.snap_point->0.state.blob.len(), chunk_bytes);
    DiskView {
        snap_chunk_health: d.chunk_list(chunk, chunks).update(chunk, RecordHealth::Clean),
        ..d
    }
}

/// The world after a matching chunk is re-written: its report, if it was
/// rotted, is recovered.
pub open spec fn chunk_written(w: WorldView, key: u64, node: u64, at: u64, chunk: u32) -> WorldView {
    let disk = w.disks[key];
    let after = w.with_disk(key, rewritten_chunk(disk, chunk as int, w.chunk_bytes));
    if disk.chunk_clean(chunk as int) {
        after
    } else {
        after.note_recovered(node, StorageRecord::SnapChunk(at, chunk))
    }
}

/// The half-open byte range of one chunk, `None` past the blob's end.
fn chunk_range(len: usize, chunk: u32, size: ChunkSize) -> (range: Option<(usize, usize)>)
    ensures
        match range {
            Some((start, end)) => start == chunk * size@ && start < len && end == if start + size@
                <= len {
                start + size@
            } else {
                len as int
            },
            None => chunk * size@ >= len,
        },
{
    let bytes = size.bytes();
    let start = match (chunk as usize).checked_mul(bytes) {
        Some(start) => start,
        None => {
            return None;
        },
    };
    if start >= len {
        return None;
    }
    let end = if len - start >= bytes {
        start + bytes
    } else {
        len
    };
    Some((start, end))
}

proof fn lemma_chunk_index(len: int, chunk: int, size: int)
    requires
        0 <= chunk,
        0 < size,
        chunk * size < len,
    ensures
        chunk < chunks_of(len as nat, size as nat),
{
    let count = (len + size - 1) / size;
    vstd::arithmetic::div_mod::lemma_fundamental_div_mod(len + size - 1, size);
    let r = (len + size - 1) % size;
    assert(len + size - 1 == size * count + r);
    assert(0 <= r < size);
    assert(chunk < count) by (nonlinear_arith)
        requires
            len + size - 1 == size * count + r,
            0 <= r < size,
            chunk * size < len,
            0 < size,
    ;
}

impl DurableStorage {
    /// The sync-failure site: whether this sync fails, and if so whether the
    /// batch persisted. `forced` takes the lost leg outright.
    fn roll_fsync_fault(
        &self,
        world: &mut StorageWorld,
        now_ns: u64,
        forced: bool,
        coins: SyncCoins,
    ) -> (rolled: Option<bool>)
        ensures
            ({
                let slots = ascending(self@.stage.accepted.dom());
                let fires = self@.faults.live(now_ns) && (forced || coins.fails);
                let persisted = !forced && coins.persisted;
                &&& rolled == if fires && old(world)@.permits(self@.key, slots) {
                    Some(persisted)
                } else {
                    None
                }
                &&& final(world)@ == if fires {
                    old(world)@.permit_and_record(
                        self@.key,
                        InjectedFault {
                            node: self@.node_id,
                            record: StorageRecord::Batch,
                            kind: InjectedFaultKind::FsyncFailed,
                            persisted,
                        },
                        slots,
                    )
                } else {
                    old(world)@
                }
            }),
    {
        if !self.faults.active(now_ns) {
            return None;
        }
        if !forced && !coins.fails {
            return None;
        }
        let persisted = !forced && coins.persisted;
        let slots = self.stage.accepted_slots();
        let fault = InjectedFault {
            node: self.node_id,
            record: StorageRecord::Batch,
            kind: InjectedFaultKind::FsyncFailed,
            persisted,
        };
        if world.permit_and_record(self.key, fault, &slots) {
            Some(persisted)
        } else {
            None
        }
    }

    /// A sync, with the draw that picks a torn prefix's length given.
    pub fn sync_with(
        &mut self,
        world: &mut StorageWorld,
        now_ns: u64,
        must_sync: MustSync,
        coins: SyncCoins,
        draw: u64,
    ) -> (written: Written)
        ensures
            ({
                let step = old(self)@.sync_step(old(world)@, now_ns, must_sync, coins, draw);
                &&& final(self)@ == step.storage
                &&& final(world)@ == step.world
                &&& written@ == step.written
            }),
    {
        if must_sync == MustSync::Relaxed {
            return Written { result: Ok(()), report: None };
        }
        let forced = self.faults.active(now_ns) && self.tearable_stage(world) && coins.force_torn;
        if !self.stage.is_idle() {
            if let Some(persisted) = self.roll_fsync_fault(world, now_ns, forced, coins) {
                let mut report = None;
                if persisted {
                    report = Some(self.flush_stage(world));
                } else if forced || coins.torn {
                    self.torn_flush_with(world, draw, coins.torn_entry_faulty);
                }
                return Written {
                    result: Err(
                        StorageError::FsyncFailed {
                            record: StorageRecord::Batch,
                            outcome: WriteOutcome::Unknown,
                        },
                    ),
                    report,
                };
            }
        }
        let report = self.flush_stage(world);
        Written { result: Ok(()), report: Some(report) }
    }

    /// A sync. A relaxed batch keeps its stage; any other flushes the whole
    /// stage through to the world, unless the sync fails.
    pub fn sync(
        &mut self,
        world: &mut StorageWorld,
        now_ns: u64,
        must_sync: MustSync,
        coins: SyncCoins,
    ) -> (written: Written)
        ensures
            exists|draw: u64|
                ({
                    let step = #[trigger] old(self)@.sync_step(
                        old(world)@,
                        now_ns,
                        must_sync,
                        coins,
                        draw,
                    );
                    &&& final(self)@ == step.storage
                    &&& final(world)@ == step.world
                    &&& written@ == step.written
                }),
    {
        let draw = sim_draw();
        self.sync_with(world, now_ns, must_sync, coins, draw)
    }

    /// A batch allowed to skip the fsync can be holding no safety-critical
    /// write.
    pub fn relaxed_stage_is_safe(&self) -> (safe: bool)
        ensures
            safe == self@.relaxes_safely(),
    {
        self.stage.ballot.is_none() && self.stage.accepted.is_empty()
            && self.stage.config_id.is_none()
    }

    pub fn persist_config_id(
        &mut self,
        world: &mut StorageWorld,
        now_ns: u64,
        config_id: u64,
        coins: WriteCoins,
    ) -> (written: Written)
        ensures
            old(self)@.writes(
                old(world)@,
                now_ns,
                WriteView::ConfigId(config_id),
                coins,
                final(self)@,
                final(world)@,
                written@,
            ),
    {
        self.write_record(world, now_ns, StagedWrite::ConfigId(config_id), coins)
    }

    pub fn persist_ballot(
        &mut self,
        world: &mut StorageWorld,
        now_ns: u64,
        ballot: Ballot,
        coins: WriteCoins,
    ) -> (written: Written)
        ensures
            old(self)@.writes(
                old(world)@,
                now_ns,
                WriteView::Promise(ballot),
                coins,
                final(self)@,
                final(world)@,
                written@,
            ),
    {
        self.write_record(world, now_ns, StagedWrite::Promise(ballot), coins)
    }

    pub fn append_accepted(
        &mut self,
        world: &mut StorageWorld,
        now_ns: u64,
        slot: u64,
        entry: Entry,
        coins: WriteCoins,
    ) -> (written: Written)
        ensures
            old(self)@.writes(
                old(world)@,
                now_ns,
                WriteView::Accepted(slot, entry@),
                coins,
                final(self)@,
                final(world)@,
                written@,
            ),
    {
        self.write_record(world, now_ns, StagedWrite::Accepted(slot, entry), coins)
    }

    pub fn set_chosen_index(
        &mut self,
        world: &mut StorageWorld,
        now_ns: u64,
        slot: u64,
        coins: WriteCoins,
    ) -> (written: Written)
        ensures
            old(self)@.writes(
                old(world)@,
                now_ns,
                WriteView::ChosenIndex(slot),
                coins,
                final(self)@,
                final(world)@,
                written@,
            ),
    {
        self.write_record(world, now_ns, StagedWrite::ChosenIndex(slot), coins)
    }

    /// Stage a floor and the sessions sealed below it.
    pub fn truncate(
        &mut self,
        world: &mut StorageWorld,
        now_ns: u64,
        first: u64,
        sealed: Vec<SealedSession>,
        coins: WriteCoins,
    ) -> (written: Written)
        ensures
            old(self)@.writes(
                old(world)@,
                now_ns,
                WriteView::Truncation(first, sealed@),
                coins,
                final(self)@,
                final(world)@,
                written@,
            ),
    {
        self.write_record(world, now_ns, StagedWrite::Truncation(first, sealed), coins)
    }

    /// Whether a transferred state matches the boundary it was taken at.
    pub fn install_at_boundary(chosen_index: u64, installed: &AppState) -> (ok: bool)
        ensures
            ok == (installed@.applied_slot() == Some(chosen_index)),
    {
        match installed.applied_slot() {
            Some(slot) => slot == chosen_index,
            None => false,
        }
    }

    /// Whether installing a transferred state would not regress this node's.
    pub fn install_does_not_regress(&self, installed: &AppState) -> (ok: bool)
        ensures
            ok == (installed@.applied_count >= self@.application.applied_count),
    {
        installed.applied_count >= self.application.applied_count
    }

    /// Stage a peer's snapshot. `installed` is the decoded transfer; one that
    /// fails to decode is a mismatch on the wire-to-disk path.
    pub fn install_snapshot(
        &mut self,
        world: &mut StorageWorld,
        now_ns: u64,
        chosen_index: u64,
        ballot: Ballot,
        installed: Option<AppState>,
        sessions: Vec<SealedSession>,
        coins: WriteCoins,
    ) -> (written: Written)
        requires
            chosen_index < u64::MAX,
        ensures
            match installed {
                Some(state) => old(self)@.writes(
                    old(world)@,
                    now_ns,
                    WriteView::Install(chosen_index, ballot, state@, sessions@),
                    coins,
                    final(self)@,
                    final(world)@,
                    written@,
                ),
                None => final(self)@ == old(self)@ && final(world)@ == old(world)@ && written@ == (
                WrittenView {
                    result: Err(
                        StorageError::Corruption {
                            record: StorageRecord::Snapshot,
                            fault: IntegrityFault::ChecksumMismatch,
                            verdict: CorruptionVerdict::Corrupted,
                        },
                    ),
                    report: None,
                }),
            },
    {
        match installed {
            Some(state) => self.write_record(
                world,
                now_ns,
                StagedWrite::Install(chosen_index, ballot, state, sessions),
                coins,
            ),
            None => Written {
                result: Err(
                    StorageError::Corruption {
                        record: StorageRecord::Snapshot,
                        fault: IntegrityFault::ChecksumMismatch,
                        verdict: CorruptionVerdict::Corrupted,
                    },
                ),
                report: None,
            },
        }
    }

    /// Whether the application already holds `slot`: a boot replay re-walks the
    /// retained chosen prefix and skips what survived.
    pub fn already_applied(&self, slot: u64) -> (applied: bool)
        ensures
            applied == self@.replays(slot),
    {
        match self.application.applied_slot() {
            Some(applied) => slot <= applied,
            None => false,
        }
    }

    /// The only slot the application may fold next.
    pub fn expected_slot(&self) -> (slot: u64)
        ensures
            slot == self@.expected_slot(),
            match self@.application.applied_slot() {
                Some(applied) => slot == applied + 1,
                None => slot == 0,
            },
    {
        self.application.applied_count
    }

    /// Fold one chosen command into the application. `next` is the state the
    /// command leads to; an already applied slot is skipped.
    pub fn apply(
        &mut self,
        world: &mut StorageWorld,
        now_ns: u64,
        slot: u64,
        command: u64,
        kind: CommandKind,
        next: AppState,
        coins: WriteCoins,
    ) -> (written: Written)
        ensures
            ({
                let step = old(self)@.apply_step(
                    old(world)@,
                    now_ns,
                    slot,
                    command,
                    kind,
                    next@,
                    coins,
                );
                &&& final(self)@ == step.storage
                &&& final(world)@ == step.world
                &&& written@ == step.written
            }),
    {
        if self.already_applied(slot) {
            return Written { result: Ok(()), report: None };
        }
        let fact = AppliedFact {
            slot,
            index: next.applied_count,
            command,
            kind,
            state: next.chain_hash,
        };
        self.write_record(world, now_ns, StagedWrite::Apply(fact, next), coins)
    }

    /// The last slot folded into this incarnation's application state.
    pub fn applied_slot(&self) -> (slot: Option<u64>)
        ensures
            slot == self@.application.applied_slot(),
    {
        self.application.applied_slot()
    }

    /// Capture a decided snapshot point: at the apply seam the staged state is
    /// the marker's boundary state. Durable with the batch's sync.
    pub fn record_snapshot(&mut self, at: u64)
        ensures
            final(self)@ == old(self)@.pointed(at),
    {
        self.stage.snap_point = Some(SnapPoint { at, state: self.application.copied() });
    }

    /// The latest snapshot point, staged or durable.
    pub fn latest_snap_point(&self, world: &StorageWorld) -> (at: Option<u64>)
        ensures
            at == self@.latest_point(world@),
    {
        if let Some(point) = &self.stage.snap_point {
            return Some(point.at);
        }
        match world.disks.get(self.key) {
            Some(disk) => match &disk.snap_point {
                Some(point) => Some(point.at),
                None => None,
            },
            None => None,
        }
    }

    /// How many chunks the point retained at `at` has.
    pub fn snap_chunk_count(&self, world: &StorageWorld, at: u64) -> (count: Option<usize>)
        ensures
            match count {
                Some(count) => world@.disks.contains_key(self@.key)
                    && world@.disks[self@.key].has_point(at) && count == chunks_of(
                    world@.disks[self@.key].snap_point->0.state.blob.len(),
                    world@.chunk_bytes,
                ),
                None => !(world@.disks.contains_key(self@.key)
                    && world@.disks[self@.key].has_point(at)),
            },
    {
        match world.disks.get(self.key) {
            Some(disk) => match &disk.snap_point {
                Some(point) => if point.at == at {
                    Some(world.chunk_size.snap_chunk_count(point.state.blob.len()))
                } else {
                    None
                },
                None => None,
            },
            None => None,
        }
    }

    /// Read one chunk of the retained point. A rotted chunk answers nothing:
    /// silence, never garbage.
    pub fn read_snap_chunk(&self, world: &StorageWorld, at: u64, chunk: u32) -> (bytes: Option<
        Vec<u8>,
    >)
        ensures
            match bytes {
                Some(bytes) => chunk_read(world@, self@.key, at, chunk) == Some(bytes@),
                None => chunk_read(world@, self@.key, at, chunk) is None,
            },
    {
        match world.disks.get(self.key) {
            Some(disk) => match &disk.snap_point {
                Some(point) => {
                    if point.at != at {
                        return None;
                    }
                    let blob = &point.state.blob;
                    match chunk_range(blob.len(), chunk, world.chunk_size) {
                        Some((start, end)) => {
                            if !disk.chunk_clean(chunk as usize) {
                                return None;
                            }
                            let bytes = copy_range(blob, start, end);
                            Some(bytes)
                        },
                        None => None,
                    }
                },
                None => None,
            },
            None => None,
        }
    }

    /// Whether `bytes` is the chunk the decided point holds there: the identity
    /// every received chunk must have.
    pub fn chunk_matches(&self, world: &StorageWorld, at: u64, chunk: u32, bytes: &Vec<u8>) -> (ok:
        bool)
        ensures
            ok == chunk_matches(world@, self@.key, at, chunk, bytes@),
    {
        match world.disks.get(self.key) {
            Some(disk) => match &disk.snap_point {
                Some(point) => {
                    if point.at != at {
                        return false;
                    }
                    let blob = &point.state.blob;
                    match chunk_range(blob.len(), chunk, world.chunk_size) {
                        Some((start, end)) => same_range(blob, start, end, bytes),
                        None => false,
                    }
                },
                None => false,
            },
            None => false,
        }
    }

    /// Re-write one chunk of the retained point with a peer's copy. Whether the
    /// point is whole afterwards; a chunk that does not match changes nothing.
    pub fn write_snap_chunk(
        &mut self,
        world: &mut StorageWorld,
        at: u64,
        chunk: u32,
        bytes: &Vec<u8>,
    ) -> (whole: bool)
        ensures
            final(self)@ == old(self)@,
            if chunk_matches(old(world)@, old(self)@.key, at, chunk, bytes@) {
                &&& final(world)@ == chunk_written(
                    old(world)@,
                    old(self)@.key,
                    old(self)@.node_id,
                    at,
                    chunk,
                )
                &&& whole == final(world)@.disks[old(self)@.key].chunks_clean()
            } else {
                final(world)@ == old(world)@ && !whole
            },
    {
        if !self.chunk_matches(world, at, chunk, bytes) {
            return false;
        }
        let ghost w = world@;
        let key = self.key;
        let mut disk = world.take_disk(key);
        let ghost d0 = disk@;
        let index = chunk as usize;
        let was_faulty = !disk.chunk_clean(index);
        let len = match &disk.snap_point {
            Some(point) => point.state.blob.len(),
            None => 0,
        };
        let size = world.chunk_size.bytes();
        proof {
            lemma_chunk_index(len as int, chunk as int, size as int);
        }
        let chunks = world.chunk_size.snap_chunk_count(len);
        disk.set_chunk(index, chunks, RecordHealth::Clean);
        let whole = all_clean(&disk.snap_chunk_health);
        let ghost d1 = disk@;
        world.put_disk(key, disk);
        assert(world@.disks =~= w.with_disk(key, d1).disks);
        if was_faulty {
            world.note_recovered(self.node_id, StorageRecord::SnapChunk(at, chunk));
        }
        whole
    }

    /// Stage the retained snapshot point as if it had been installed, where it
    /// is whole, covers the floor, and is ahead of the application. The slot it
    /// was captured at.
    pub fn restore_from_snap_point(&mut self, world: &StorageWorld) -> (at: Option<u64>)
        ensures
            (final(self)@, at) == old(self)@.restored(world@),
    {
        let candidate = match world.disks.get(self.key) {
            Some(disk) => disk.restorable_point(),
            None => None,
        };
        match candidate {
            Some(point) => {
                if let Some(applied) = self.application.applied_slot() {
                    if applied >= point.at {
                        return None;
                    }
                }
                self.application = point.state.copied();
                self.stage.snapshot = Some(point.state);
                Some(point.at)
            },
            None => None,
        }
    }
}

fn copy_range(bytes: &Vec<u8>, start: usize, end: usize) -> (copy: Vec<u8>)
    requires
        start <= end <= bytes@.len(),
    ensures
        copy@ == bytes@.subrange(start as int, end as int),
{
    let mut copy: Vec<u8> = Vec::new();
    let mut i = start;
    while i < end
        invariant
            start <= i <= end <= bytes@.len(),
            copy@ == bytes@.subrange(start as int, i as int),
        decreases end - i,
    {
        copy.push(bytes[i]);
        i = i + 1;
        assert(copy@ =~= bytes@.subrange(start as int, i as int));
    }
    copy
}

fn same_range(bytes: &Vec<u8>, start: usize, end: usize, other: &Vec<u8>) -> (same: bool)
    requires
        start <= end <= bytes@.len(),
    ensures
        same == (other@ == bytes@.subrange(start as int, end as int)),
{
    if other.len() != end - start {
        return false;
    }
    let mut i: usize = 0;
    while i < other.len()
        invariant
            i <= other@.len(),
            start <= end <= bytes@.len(),
            other@.len() == end - start,
            forall|j: int| 0 <= j < i ==> other@[j] == bytes@[start + j],
        decreases other@.len() - i,
    {
        if other[i] != bytes[start + i] {
            assert(other@[i as int] != bytes@.subrange(start as int, end as int)[i as int]);
            return false;
        }
        i = i + 1;
    }
    assert(other@ =~= bytes@.subrange(start as int, end as int));
    true
}

/// The chunks of a blob cover it: every byte stands in the chunk its place
/// divides into, at the remainder.
pub proof fn law_chunks_cover_the_blob(blob: Seq<u8>, chunk_bytes: nat, byte: int)
    requires
        chunk_bytes > 0,
        0 <= byte < blob.len(),
    ensures
        0 <= byte / chunk_bytes as int,
        byte / (chunk_bytes as int) < chunks_of(blob.len(), chunk_bytes),
        chunk_bytes_of(blob, byte / chunk_bytes as int, chunk_bytes)[byte % chunk_bytes as int]
            == blob[byte],
{
    let size = chunk_bytes as int;
    let chunk = byte / size;
    let rest = byte % size;
    vstd::arithmetic::div_mod::lemma_fundamental_div_mod(byte, size);
    vstd::arithmetic::div_mod::lemma_div_pos_is_pos(byte, size);
    assert(chunk * size == size * chunk) by (nonlinear_arith);
    lemma_chunk_index(blob.len() as int, chunk, size);
}

/// A repaired chunk reads back as the peer sent it, and every other chunk reads
/// as it did.
pub proof fn law_repaired_chunk_reads_back(
    w: WorldView,
    key: u64,
    node: u64,
    at: u64,
    chunk: u32,
    bytes: Seq<u8>,
    other: u32,
)
    requires
        w.chunk_bytes > 0,
        chunk_matches(w, key, at, chunk, bytes),
        other != chunk,
    ensures
        chunk_read(chunk_written(w, key, node, at, chunk), key, at, chunk) == Some(bytes),
        chunk_read(chunk_written(w, key, node, at, chunk), key, at, other) == chunk_read(
            w,
            key,
            at,
            other,
        ),
{
    let d = w.disks[key];
    let len = d.snap_point->0.state.blob.len();
    lemma_chunk_index(len as int, chunk as int, w.chunk_bytes as int);
    let after = rewritten_chunk(d, chunk as int, w.chunk_bytes);
    assert(chunk_written(w, key, node, at, chunk).disks[key] == after);
    assert(after.chunk_clean(chunk as int));
    assert(after.chunk_clean(other as int) == d.chunk_clean(other as int));
}

} // verus!
