//! The fsync: a whole stage reaching one node's durable disk.
//!
//! A flush is all or nothing and in write order: scalars, the accepted log, the
//! floor behind the chosen index it sits under, the application state, the
//! decided snapshot point. Records it re-writes, or that its floor supersedes,
//! resolve their standing fault reports.
use crate::disk::{DiskView, NodeDisk, RecordHealth};
use crate::ledger::{lemma_recover_both, lemma_recover_same};
use crate::ordered::{OrdMap, OrdSet, ascending, lemma_walk, lists, walked};
use crate::records::{ChunkSize, Entry, HardState, SealedSession, Session, StorageRecord, chunks_of};
use crate::stage::{AppliedFact, Stage, StageView};
use crate::world::{StorageWorld, WorldView, only};
use vstd::prelude::*;

verus! {

/// Sealed sessions are upserts: the first slot to claim a session keeps it.
pub open spec fn seal(ledger: Map<Session, u64>, list: Seq<SealedSession>) -> Map<Session, u64>
    decreases list.len(),
{
    if list.len() == 0 {
        ledger
    } else {
        let before = seal(ledger, list.drop_last());
        if before.contains_key(list.last().session) {
            before
        } else {
            before.insert(list.last().session, list.last().slot)
        }
    }
}

/// The scalars after a flush. The promise is monotonic: an installed snapshot
/// carries the serving peer's ballot, which can be below this node's own.
pub open spec fn flush_scalars(d: HardState, st: StageView) -> HardState {
    HardState {
        config_id: match st.config_id {
            Some(config_id) => config_id,
            None => d.config_id,
        },
        max_promised_ballot: match st.ballot {
            Some(ballot) => d.max_promised_ballot.greater(ballot),
            None => d.max_promised_ballot,
        },
        chosen_index: match st.chosen {
            Some(chosen) => Some(chosen),
            None => d.chosen_index,
        },
    }
}

/// The compaction floor after a flush: it never lowers.
pub open spec fn flush_floor(d: DiskView, st: StageView) -> u64 {
    match st.floor {
        Some(floor) if floor > d.first_slot => floor,
        _ => d.first_slot,
    }
}

pub open spec fn clean_if(rewritten: bool, health: RecordHealth) -> RecordHealth {
    if rewritten {
        RecordHealth::Clean
    } else {
        health
    }
}

/// A slot a flush keeps: everything, or from the staged floor on.
pub open spec fn kept(d: DiskView, st: StageView, slot: u64) -> bool {
    st.floor is Some ==> slot >= flush_floor(d, st)
}

/// The disk after a flush of `st`.
pub open spec fn flush_disk(d: DiskView, st: StageView, chunk_bytes: nat) -> DiskView {
    DiskView {
        hard_state: flush_scalars(d.hard_state, st),
        accepted: d.accepted.union_prefer_right(st.accepted).restrict(
            Set::new(|slot: u64| kept(d, st, slot)),
        ),
        first_slot: flush_floor(d, st),
        chain: match (st.applied, st.snapshot) {
            (Some(applied), _) => applied,
            (None, Some(installed)) => installed,
            (None, None) => d.chain,
        },
        sealed: seal(d.sealed, st.sealed),
        entry_health: d.entry_health.remove_keys(st.accepted.dom()).restrict(
            Set::new(|slot: u64| kept(d, st, slot)),
        ),
        promise_health: if st.ballot is Some {
            (RecordHealth::Clean, RecordHealth::Clean)
        } else {
            d.promise_health
        },
        chosen_health: clean_if(st.chosen is Some, d.chosen_health),
        truncation_health: clean_if(st.floor is Some, d.truncation_health),
        snapshot_health: clean_if(st.snapshot is Some || st.applied is Some, d.snapshot_health),
        snap_point: match st.snap_point {
            Some(point) => Some(point),
            None => d.snap_point,
        },
        snap_chunk_health: match st.snap_point {
            Some(point) => Seq::new(
                chunks_of(point.state.blob.len(), chunk_bytes),
                |i: int| RecordHealth::Clean,
            ),
            None => d.snap_chunk_health,
        },
        ..d
    }
}

/// A chunk index as its record names it.
pub open spec fn chunk_name(index: int) -> u32 {
    if 0 <= index <= u32::MAX {
        index as u32
    } else {
        u32::MAX
    }
}

/// A rotted chunk of the retained point that advancing the point supersedes.
pub open spec fn superseded_chunk(d: DiskView, st: StageView, at: u64, chunk: u32) -> bool {
    d.snap_point matches Some(old) && st.snap_point matches Some(new) && old.at == at && old.at
        != new.at && exists|i: int|
        0 <= i < d.snap_chunk_health.len() && #[trigger] d.snap_chunk_health[i]
            != RecordHealth::Clean && chunk == chunk_name(i)
}

/// Slots whose unhealthy record a flush re-writes, or drops below its floor.
pub open spec fn healed(d: DiskView, st: StageView, slot: u64) -> bool {
    d.entry_health.contains_key(slot) && (st.accepted.contains_key(slot) || !kept(d, st, slot))
}

/// The records whose standing reports a flush resolves.
pub open spec fn flush_heals(d: DiskView, st: StageView, record: StorageRecord) -> bool {
    match record {
        StorageRecord::Accepted(slot) => healed(d, st, slot),
        StorageRecord::Snapshot => st.snapshot is Some || st.applied is Some,
        StorageRecord::SnapChunk(at, chunk) => superseded_chunk(d, st, at, chunk),
        _ => false,
    }
}

/// The world after `key` flushes `st`.
pub open spec fn flush_world(w: WorldView, key: u64, node: u64, st: StageView) -> WorldView {
    let before = w.disk_or_fresh(key);
    let after = flush_disk(before, st, w.chunk_bytes);
    w.clear_marks(key, st.accepted.dom()).with_disk(key, after).retire_marks(
        key,
        after.first_slot,
    ).note_recovered_all(node, |record: StorageRecord| flush_heals(before, st, record))
}

/// What a flush made durable, for the checkers that follow the disk.
pub struct FlushReport {
    /// Each flushed accepted slot with its command's digest, in slot order.
    pub accepted: Vec<(u64, u64)>,
    pub floor: Option<u64>,
    /// The chosen index an installed snapshot landed at.
    pub landing: Option<u64>,
    /// The applied count and chain digest of an installed snapshot.
    pub installed: Option<(u64, u64)>,
    pub applies: Vec<AppliedFact>,
    /// The flushed floor does not outrun the flushed chosen index.
    pub floor_behind_chosen: bool,
}

pub struct FlushReportView {
    pub accepted: Seq<(u64, u64)>,
    pub floor: Option<u64>,
    pub landing: Option<u64>,
    pub installed: Option<(u64, u64)>,
    pub applies: Seq<AppliedFact>,
    pub floor_behind_chosen: bool,
}

impl View for FlushReport {
    type V = FlushReportView;

    open spec fn view(&self) -> FlushReportView {
        FlushReportView {
            accepted: self.accepted@,
            floor: self.floor,
            landing: self.landing,
            installed: self.installed,
            applies: self.applies@,
            floor_behind_chosen: self.floor_behind_chosen,
        }
    }
}

pub open spec fn flushed_digests(st: StageView) -> Seq<(u64, u64)> {
    let slots = ascending(st.accepted.dom());
    Seq::new(slots.len(), |i: int| (slots[i], st.accepted[slots[i]].digest))
}

pub open spec fn flush_report(d: DiskView, st: StageView, chunk_bytes: nat) -> FlushReportView {
    FlushReportView {
        accepted: flushed_digests(st),
        floor: st.floor,
        landing: if st.snapshot is Some {
            st.chosen
        } else {
            None
        },
        installed: match st.snapshot {
            Some(installed) => Some((installed.applied_count, installed.chain_hash)),
            None => None,
        },
        applies: st.applies,
        floor_behind_chosen: flush_disk(d, st, chunk_bytes).floor_behind_chosen(),
    }
}

fn seal_all(ledger: &mut OrdMap<Session, u64>, list: &Vec<SealedSession>)
    ensures
        final(ledger)@ == seal(old(ledger)@, list@),
{
    let mut i: usize = 0;
    assert(list@.take(0) =~= Seq::<SealedSession>::empty());
    while i < list.len()
        invariant
            i <= list@.len(),
            ledger@ == seal(old(ledger)@, list@.take(i as int)),
        decreases list@.len() - i,
    {
        let sealed = list[i];
        proof {
            assert(list@.take(i + 1).drop_last() =~= list@.take(i as int));
            assert(list@.take(i + 1).last() == sealed);
        }
        if !ledger.contains(sealed.session) {
            ledger.insert(sealed.session, sealed.slot);
        }
        i = i + 1;
    }
    assert(list@.take(i as int) =~= list@);
}

/// Re-write the staged entries; the slots whose unhealthy record was replaced.
fn rewrite_entries(disk: &mut NodeDisk, staged: &OrdMap<u64, Entry>) -> (replaced: OrdSet<u64>)
    ensures
        final(disk)@ == (DiskView {
            accepted: old(disk)@.accepted.union_prefer_right(staged@),
            entry_health: old(disk)@.entry_health.remove_keys(staged@.dom()),
            ..old(disk)@
        }),
        replaced@ == staged@.dom().filter(|slot: u64| old(disk)@.entry_health.contains_key(slot)),
{
    let ghost before = disk@;
    let ghost dom = staged@.dom();
    let mut replaced: OrdSet<u64> = OrdSet::new();
    let n = staged.len();
    let mut i: usize = 0;
    proof {
        lemma_walk(dom, 0);
        assert(disk@.accepted =~= before.accepted.union_prefer_right(
            staged@.restrict(walked(dom, 0)),
        ));
        assert(disk@.entry_health =~= before.entry_health.remove_keys(walked(dom, 0)));
        assert(replaced@ =~= walked(dom, 0).filter(
            |slot: u64| before.entry_health.contains_key(slot),
        ));
    }
    while i < n
        invariant
            i <= n,
            dom == staged@.dom(),
            n == dom.len(),
            n == ascending(dom).len(),
            lists(ascending(dom), dom),
            disk@ == (DiskView {
                accepted: disk@.accepted,
                entry_health: disk@.entry_health,
                ..before
            }),
            disk@.accepted == before.accepted.union_prefer_right(
                staged@.restrict(walked(dom, i as int)),
            ),
            disk@.entry_health == before.entry_health.remove_keys(walked(dom, i as int)),
            replaced@ == walked(dom, i as int).filter(
                |slot: u64| before.entry_health.contains_key(slot),
            ),
        decreases n - i,
    {
        proof {
            lemma_walk(dom, i as int);
        }
        let slot = staged.key_at(i);
        let entry = staged.value_at(i).copied();
        if disk.entry_health.remove(slot).is_some() {
            replaced.insert(slot);
        }
        disk.accepted.insert(slot, entry);
        i = i + 1;
        proof {
            assert(disk@.accepted =~= before.accepted.union_prefer_right(
                staged@.restrict(walked(dom, i as int)),
            ));
            assert(disk@.entry_health =~= before.entry_health.remove_keys(walked(dom, i as int)));
            assert(replaced@ =~= walked(dom, i as int).filter(
                |slot: u64| before.entry_health.contains_key(slot),
            ));
        }
    }
    proof {
        lemma_walk(dom, n as int);
        assert(staged@.restrict(dom) =~= staged@);
    }
    replaced
}

/// Raise the floor to at least `floor` and drop what falls below it; the slots
/// whose unhealthy record was superseded.
fn truncate_below(disk: &mut NodeDisk, floor: u64) -> (superseded: OrdSet<u64>)
    ensures
        final(disk)@ == {
            let first = if floor > old(disk)@.first_slot {
                floor
            } else {
                old(disk)@.first_slot
            };
            DiskView {
                first_slot: first,
                accepted: old(disk)@.accepted.restrict(Set::new(|slot: u64| slot >= first)),
                entry_health: old(disk)@.entry_health.restrict(Set::new(|slot: u64| slot >= first)),
                truncation_health: RecordHealth::Clean,
                ..old(disk)@
            }
        },
        superseded@ == old(disk)@.entry_health.dom().filter(
            |slot: u64| slot < final(disk)@.first_slot,
        ),
{
    let ghost before = disk@;
    if floor > disk.first_slot {
        disk.first_slot = floor;
    }
    let first = disk.first_slot;
    let mut superseded: OrdSet<u64> = OrdSet::new();
    let n = disk.entry_health.len();
    let ghost dom = disk.entry_health@.dom();
    let mut i: usize = 0;
    proof {
        lemma_walk(dom, 0);
        assert(superseded@ =~= walked(dom, 0).filter(|slot: u64| slot < first));
    }
    while i < n
        invariant
            i <= n,
            dom == disk.entry_health@.dom(),
            n == dom.len(),
            n == ascending(dom).len(),
            lists(ascending(dom), dom),
            superseded@ == walked(dom, i as int).filter(|slot: u64| slot < first),
        decreases n - i,
    {
        proof {
            lemma_walk(dom, i as int);
        }
        let slot = disk.entry_health.key_at(i);
        if slot < first {
            superseded.insert(slot);
        }
        i = i + 1;
        assert(superseded@ =~= walked(dom, i as int).filter(|slot: u64| slot < first));
    }
    proof {
        lemma_walk(dom, n as int);
    }
    disk.accepted.retain_from(first);
    disk.entry_health.retain_from(first);
    disk.truncation_health = RecordHealth::Clean;
    proof {
        let upper = Set::new(|slot: u64| slot >= first);
        assert(disk@.accepted =~= before.accepted.restrict(upper));
        assert(disk@.entry_health =~= before.entry_health.restrict(upper));
        assert(superseded@ =~= before.entry_health.dom().filter(
            |slot: u64| slot < disk@.first_slot,
        ));
    }
    superseded
}

/// The names of the unclean chunks in a health list.
pub fn rotted_chunks(health: &Vec<RecordHealth>) -> (chunks: Vec<u32>)
    ensures
        forall|chunk: u32|
            chunks@.contains(chunk) <==> exists|i: int|
                0 <= i < health@.len() && #[trigger] health@[i] != RecordHealth::Clean && chunk
                    == chunk_name(i),
        chunks@ == rotted_names(health@),
{
    let mut chunks: Vec<u32> = Vec::new();
    let mut i: usize = 0;
    assert(health@.take(0) =~= Seq::<RecordHealth>::empty());
    while i < health.len()
        invariant
            i <= health@.len(),
            chunks@ == rotted_names(health@.take(i as int)),
        decreases health@.len() - i,
    {
        proof {
            assert(health@.take(i + 1).drop_last() =~= health@.take(i as int));
        }
        if health[i] != RecordHealth::Clean {
            let name: u32 = if i <= u32::MAX as usize {
                i as u32
            } else {
                u32::MAX
            };
            chunks.push(name);
        }
        i = i + 1;
    }
    proof {
        assert(health@.take(i as int) =~= health@);
        assert forall|chunk: u32|
            chunks@.contains(chunk) <==> exists|i: int|
                0 <= i < health@.len() && #[trigger] health@[i] != RecordHealth::Clean && chunk
                    == chunk_name(i) by {
            lemma_rotted_names(health@, chunk);
        }
    }
    chunks
}

/// The names of the unclean chunks, in index order.
pub open spec fn rotted_names(health: Seq<RecordHealth>) -> Seq<u32>
    decreases health.len(),
{
    if health.len() == 0 {
        seq![]
    } else {
        let before = rotted_names(health.drop_last());
        if health.last() != RecordHealth::Clean {
            before.push(chunk_name(health.len() - 1))
        } else {
            before
        }
    }
}

pub proof fn lemma_rotted_names(health: Seq<RecordHealth>, chunk: u32)
    ensures
        rotted_names(health).contains(chunk) <==> exists|i: int|
            0 <= i < health.len() && #[trigger] health[i] != RecordHealth::Clean && chunk
                == chunk_name(i),
    decreases health.len(),
{
    if health.len() > 0 {
        let front = health.drop_last();
        let before = rotted_names(front);
        let all = rotted_names(health);
        lemma_rotted_names(front, chunk);
        if all.contains(chunk) {
            let j = all.index_of(chunk);
            if j < before.len() {
                assert(before[j] == chunk);
                let i = choose|i: int|
                    0 <= i < front.len() && #[trigger] front[i] != RecordHealth::Clean && chunk
                        == chunk_name(i);
                assert(health[i] == front[i]);
            } else {
                assert(health[health.len() - 1] != RecordHealth::Clean);
            }
        }
        if exists|i: int|
            0 <= i < health.len() && #[trigger] health[i] != RecordHealth::Clean && chunk
                == chunk_name(i) {
            let i = choose|i: int|
                0 <= i < health.len() && #[trigger] health[i] != RecordHealth::Clean && chunk
                    == chunk_name(i);
            if i < front.len() {
                assert(front[i] != RecordHealth::Clean);
                assert(before.contains(chunk));
                let j = before.index_of(chunk);
                assert(all[j] == chunk);
            } else {
                assert(all.last() == chunk);
                assert(all[all.len() - 1] == chunk);
            }
        }
    }
}

/// Write a stage to a disk. The slots whose unhealthy record was replaced or
/// superseded, and the retained point's rotted chunks if the point advanced.
fn flush_to_disk(disk: &mut NodeDisk, stage: Stage, chunk_size: ChunkSize) -> (healed_records: (
    OrdSet<u64>,
    Option<(u64, Vec<u32>)>,
))
    ensures
        final(disk)@ == flush_disk(old(disk)@, stage@, chunk_size@),
        forall|slot: u64| #[trigger]
            healed_records.0@.contains(slot) <==> healed(old(disk)@, stage@, slot),
        forall|at: u64, chunk: u32| #[trigger]
            superseded_chunk(old(disk)@, stage@, at, chunk) <==> (
            healed_records.1 matches Some(chunks) && chunks.0 == at && chunks.1@.contains(chunk)),
{
    let ghost before = disk@;
    let ghost st = stage@;
    if let Some(config_id) = stage.config_id {
        disk.hard_state.config_id = config_id;
    }
    seal_all(&mut disk.sealed, &stage.sealed);
    if let Some(ballot) = stage.ballot {
        disk.hard_state.max_promised_ballot = disk.hard_state.max_promised_ballot.or_greater(
            ballot,
        );
        disk.promise_health = (RecordHealth::Clean, RecordHealth::Clean);
    }
    let mut healed_slots = rewrite_entries(disk, &stage.accepted);
    let ghost rewritten = disk@;
    let ghost replaced = healed_slots@;
    if let Some(chosen) = stage.chosen {
        disk.hard_state.chosen_index = Some(chosen);
        disk.chosen_health = RecordHealth::Clean;
    }
    if let Some(floor) = stage.floor {
        let superseded = truncate_below(disk, floor);
        healed_slots.extend(&superseded);
    }
    proof {
        let keep = Set::new(|slot: u64| kept(before, st, slot));
        assert(disk@.accepted =~= before.accepted.union_prefer_right(st.accepted).restrict(keep));
        assert(disk@.entry_health =~= before.entry_health.remove_keys(st.accepted.dom()).restrict(
            keep,
        ));
        assert forall|slot: u64| #[trigger] healed_slots@.contains(slot) <==> healed(
            before,
            st,
            slot,
        ) by {
            assert(replaced.contains(slot) <==> st.accepted.contains_key(slot)
                && before.entry_health.contains_key(slot));
        }
    }
    if let Some(installed) = stage.snapshot {
        disk.chain = installed;
        disk.snapshot_health = RecordHealth::Clean;
    }
    if let Some(applied) = stage.applied {
        disk.chain = applied;
        disk.snapshot_health = RecordHealth::Clean;
    }
    let mut superseded_chunks: Option<(u64, Vec<u32>)> = None;
    if let Some(point) = stage.snap_point {
        if let Some(old_point) = &disk.snap_point {
            if old_point.at != point.at {
                superseded_chunks = Some((old_point.at, rotted_chunks(&disk.snap_chunk_health)));
            }
        }
        let chunks = chunk_size.snap_chunk_count(point.state.blob.len());
        disk.snap_point = Some(point);
        disk.snap_chunk_health = clean_chunks(chunks);
    }
    proof {
        assert(disk@ =~= flush_disk(before, st, chunk_size@));
    }
    (healed_slots, superseded_chunks)
}

fn clean_chunks(chunks: usize) -> (health: Vec<RecordHealth>)
    ensures
        health@ == Seq::new(chunks as nat, |i: int| RecordHealth::Clean),
{
    let mut health: Vec<RecordHealth> = Vec::new();
    while health.len() < chunks
        invariant
            health@.len() <= chunks,
            forall|i: int| 0 <= i < health@.len() ==> #[trigger] health@[i] == RecordHealth::Clean,
        decreases chunks - health.len(),
    {
        health.push(RecordHealth::Clean);
    }
    assert(health@ =~= Seq::new(chunks as nat, |i: int| RecordHealth::Clean));
    health
}

/// Flush a stage through to `key`'s disk in the durable world. Marks of the
/// records it re-writes, or drops below its floor, clear, and the reports it
/// resolves are recovered.
pub fn flush(world: &mut StorageWorld, key: u64, node: u64, stage: Stage) -> (report: FlushReport)
    ensures
        final(world)@ == flush_world(old(world)@, key, node, stage@),
        report@ == flush_report(
            old(world)@.disk_or_fresh(key),
            stage@,
            old(world)@.chunk_bytes,
        ),
{
    let ghost w0 = world@;
    let ghost st = stage@;
    let ghost d0 = w0.disk_or_fresh(key);
    let accepted = digests(&stage);
    let floor = stage.floor;
    let landing = if stage.snapshot.is_some() {
        stage.chosen
    } else {
        None
    };
    let installed = match &stage.snapshot {
        Some(installed) => Some((installed.applied_count, installed.chain_hash)),
        None => None,
    };
    let applies = copy_facts(&stage.applies);
    let app_landed = stage.snapshot.is_some() || stage.applied.is_some();
    let flushed = key_set(&stage.accepted);
    world.clear_marks(key, &flushed);
    let ghost w1 = world@;
    let mut disk = world.take_disk(key);
    assert(disk@ == d0);
    let (healed_slots, superseded) = flush_to_disk(&mut disk, stage, world.chunk_size);
    let floor_behind_chosen = disk.floor_behind_chosen();
    let first_slot = disk.first_slot;
    let ghost d1 = disk@;
    world.put_disk(key, disk);
    proof {
        assert(world@.disks =~= w1.with_disk(key, d1).disks);
        assert(world@ == w1.with_disk(key, d1));
    }
    world.retire_marks(key, first_slot);
    let ghost w2 = world@;
    assert(w2 == w1.with_disk(key, d1).retire_marks(key, d1.first_slot));
    recover_slots(world, node, &healed_slots);
    let ghost slots_family = slots_family(healed_slots@);
    if app_landed {
        world.note_recovered(node, StorageRecord::Snapshot);
    }
    let ghost app_family = |r: StorageRecord| app_landed && r == StorageRecord::Snapshot;
    proof {
        let both = |r: StorageRecord| slots_family(r) || app_family(r);
        if app_landed {
            lemma_recover_both(w2, node, slots_family, only(StorageRecord::Snapshot), both);
        } else {
            lemma_recover_same(w2, node, slots_family, both);
        }
        assert(world@ == w2.note_recovered_all(node, both));
    }
    match &superseded {
        Some(chunks) => {
            recover_chunks(world, node, chunks.0, &chunks.1);
        },
        None => {},
    }
    proof {
        let both = |r: StorageRecord| slots_family(r) || app_family(r);
        let all = |record: StorageRecord| flush_heals(d0, st, record);
        match superseded {
            Some(chunks) => {
                let third = chunks_family(chunks.0, chunks.1@);
                assert forall|r: StorageRecord| #[trigger] all(r) == (both(r) || third(r)) by {
                    match r {
                        StorageRecord::SnapChunk(at, chunk) => {
                            assert(superseded_chunk(d0, st, at, chunk) == third(r));
                        },
                        _ => {},
                    }
                }
                lemma_recover_both(w2, node, both, third, all);
            },
            None => {
                assert forall|r: StorageRecord| #[trigger] both(r) == all(r) by {
                    match r {
                        StorageRecord::SnapChunk(at, chunk) => {
                            assert(!superseded_chunk(d0, st, at, chunk));
                        },
                        _ => {},
                    }
                }
                lemma_recover_same(w2, node, both, all);
            },
        }
    }
    FlushReport { accepted, floor, landing, installed, applies, floor_behind_chosen }
}

pub open spec fn slots_family(slots: Set<u64>) -> spec_fn(StorageRecord) -> bool {
    |r: StorageRecord| r matches StorageRecord::Accepted(slot) && slots.contains(slot)
}

pub open spec fn chunks_family(at: u64, chunks: Seq<u32>) -> spec_fn(StorageRecord) -> bool {
    |r: StorageRecord|
        r matches StorageRecord::SnapChunk(point, chunk) && point == at && chunks.contains(chunk)
}

fn recover_slots(world: &mut StorageWorld, node: u64, slots: &OrdSet<u64>)
    ensures
        final(world)@ == old(world)@.note_recovered_all(node, slots_family(slots@)),
{
    let ghost w = world@;
    let n = slots.len();
    let mut i: usize = 0;
    proof {
        lemma_walk(slots@, 0);
        lemma_recover_none(w, node, slots_family(walked(slots@, 0)));
    }
    while i < n
        invariant
            i <= n,
            n == slots@.len(),
            n == ascending(slots@).len(),
            lists(ascending(slots@), slots@),
            world@ == w.note_recovered_all(node, slots_family(walked(slots@, i as int))),
        decreases n - i,
    {
        proof {
            lemma_walk(slots@, i as int);
        }
        let slot = slots.at(i);
        world.note_recovered(node, StorageRecord::Accepted(slot));
        proof {
            lemma_recover_both(
                w,
                node,
                slots_family(walked(slots@, i as int)),
                only(StorageRecord::Accepted(slot)),
                slots_family(walked(slots@, i + 1)),
            );
        }
        i = i + 1;
    }
    proof {
        lemma_walk(slots@, n as int);
    }
}

fn recover_chunks(world: &mut StorageWorld, node: u64, at: u64, chunks: &Vec<u32>)
    ensures
        final(world)@ == old(world)@.note_recovered_all(node, chunks_family(at, chunks@)),
{
    let ghost w = world@;
    let mut i: usize = 0;
    proof {
        lemma_recover_none(w, node, chunks_family(at, chunks@.take(0)));
    }
    while i < chunks.len()
        invariant
            i <= chunks@.len(),
            world@ == w.note_recovered_all(node, chunks_family(at, chunks@.take(i as int))),
        decreases chunks@.len() - i,
    {
        let chunk = chunks[i];
        world.note_recovered(node, StorageRecord::SnapChunk(at, chunk));
        proof {
            let before = chunks@.take(i as int);
            let after = chunks@.take(i + 1);
            assert forall|r: StorageRecord| #[trigger] chunks_family(at, after)(r) == (
            chunks_family(at, before)(r) || only(StorageRecord::SnapChunk(at, chunk))(r)) by {
                if let StorageRecord::SnapChunk(p, c) = r {
                    lemma_take_contains(chunks@, i as int, c);
                }
            }
            lemma_recover_both(
                w,
                node,
                chunks_family(at, before),
                only(StorageRecord::SnapChunk(at, chunk)),
                chunks_family(at, after),
            );
        }
        i = i + 1;
    }
    assert(chunks@.take(i as int) =~= chunks@);
}

pub proof fn lemma_take_contains<T>(list: Seq<T>, i: int, x: T)
    requires
        0 <= i < list.len(),
    ensures
        list.take(i + 1).contains(x) <==> list.take(i).contains(x) || x == list[i],
{
    let before = list.take(i);
    let after = list.take(i + 1);
    if after.contains(x) {
        let j = after.index_of(x);
        if j < i {
            assert(before[j] == x);
        }
    }
    if before.contains(x) {
        let j = before.index_of(x);
        assert(after[j] == x);
    }
    if x == list[i] {
        assert(after[i] == x);
    }
}

/// Recovering no record changes nothing.
proof fn lemma_recover_none(w: WorldView, node: u64, none: spec_fn(StorageRecord) -> bool)
    requires
        forall|r: StorageRecord| !#[trigger] none(r),
    ensures
        w.note_recovered_all(node, none) == w,
{
    assert(w.note_recovered_all(node, none).corruptions =~= w.corruptions);
}

fn copy_facts(facts: &Vec<AppliedFact>) -> (copy: Vec<AppliedFact>)
    ensures
        copy@ == facts@,
{
    let mut copy: Vec<AppliedFact> = Vec::new();
    let mut i: usize = 0;
    while i < facts.len()
        invariant
            i <= facts@.len(),
            copy@ == facts@.take(i as int),
        decreases facts@.len() - i,
    {
        copy.push(facts[i]);
        i = i + 1;
        assert(copy@ =~= facts@.take(i as int));
    }
    assert(copy@ =~= facts@);
    copy
}

fn key_set(map: &OrdMap<u64, Entry>) -> (keys: OrdSet<u64>)
    ensures
        keys@ == map@.dom(),
{
    let mut keys: OrdSet<u64> = OrdSet::new();
    let n = map.len();
    let ghost dom = map@.dom();
    let mut i: usize = 0;
    proof {
        lemma_walk(dom, 0);
    }
    while i < n
        invariant
            i <= n,
            dom == map@.dom(),
            n == dom.len(),
            n == ascending(dom).len(),
            lists(ascending(dom), dom),
            keys@ == walked(dom, i as int),
        decreases n - i,
    {
        proof {
            lemma_walk(dom, i as int);
        }
        keys.insert(map.key_at(i));
        i = i + 1;
    }
    proof {
        lemma_walk(dom, n as int);
    }
    keys
}

fn digests(stage: &Stage) -> (list: Vec<(u64, u64)>)
    ensures
        list@ == flushed_digests(stage@),
{
    let mut list: Vec<(u64, u64)> = Vec::new();
    let n = stage.accepted.len();
    let mut i: usize = 0;
    while i < n
        invariant
            i <= n,
            n == stage@.accepted.dom().len(),
            n == ascending(stage@.accepted.dom()).len(),
            list@ == flushed_digests(stage@).take(i as int),
        decreases n - i,
    {
        list.push((stage.accepted.key_at(i), stage.accepted.value_at(i).digest));
        i = i + 1;
        assert(list@ =~= flushed_digests(stage@).take(i as int));
    }
    assert(list@ =~= flushed_digests(stage@));
    list
}

} // verus!
