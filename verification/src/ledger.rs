//! The ground truth of injected faults: which slots lost their last readable
//! copy, what became of each injection, and whether the next one is inside
//! the budget.
use crate::disk::{DiskView, RecordHealth, SlotHealth};
use crate::ordered::{MapKey, OrdSet, ascending, lemma_walk, lists, walked};
use crate::records::{StorageRecord, WitnessStatus};
use crate::world::{
    CorruptionInjection, CorruptionKind, CorruptionOutcome, InjectedFault, Sighting, StorageWorld,
    WorldView, any_open, below, dormant_at, dormant_block, holds_point, just, only, open_at,
    recovered, resolved,
};
use vstd::prelude::*;

verus! {

impl StorageWorld {
    /// Whether a live node can serve `slot` by itself.
    fn served(&self, slot: u64) -> (served: bool)
        ensures
            served == exists|key: u64| #[trigger] self@.serves(key, slot),
    {
        let n = self.disks.len();
        let ghost dom = self.disks@.dom();
        let mut i: usize = 0;
        proof {
            lemma_walk(dom, 0);
        }
        while i < n
            invariant
                i <= n,
                dom == self.disks@.dom(),
                n == dom.len(),
                n == ascending(dom).len(),
                lists(ascending(dom), dom),
                forall|key: u64|
                    walked(dom, i as int).contains(key) ==> !#[trigger] self@.serves(key, slot),
            decreases n - i,
        {
            proof {
                lemma_walk(dom, i as int);
            }
            let key = self.disks.key_at(i);
            let disk = self.disks.value_at(i);
            if !self.parked.contains(key) {
                if disk.holds_clean(slot) {
                    assert(self@.serves(key, slot));
                    return true;
                }
                if disk.first_slot > slot && disk.snapshot_health == RecordHealth::Clean {
                    assert(self@.serves(key, slot));
                    return true;
                }
            }
            i = i + 1;
        }
        proof {
            lemma_walk(dom, n as int);
        }
        false
    }

    /// How many chunks the point captured at `at` is sliced into.
    fn point_chunks(&self, at: u64) -> (chunks: usize)
        requires
            exists|key: u64| #[trigger] self@.holds_point(key, at),
        ensures
            chunks == self@.point_chunks(at),
    {
        let n = self.disks.len();
        let ghost dom = self.disks@.dom();
        let mut i: usize = 0;
        proof {
            lemma_walk(dom, 0);
        }
        while i < n
            invariant
                i <= n,
                dom == self.disks@.dom(),
                n == dom.len(),
                n == ascending(dom).len(),
                lists(ascending(dom), dom),
                forall|j: int|
                    0 <= j < i ==> !self@.holds_point(#[trigger] ascending(dom)[j], at),
            decreases n - i,
        {
            proof {
                lemma_walk(dom, i as int);
            }
            let disk = self.disks.value_at(i);
            let ghost key = ascending(dom)[i as int];
            if let Some(point) = &disk.snap_point {
                if point.at == at {
                    proof {
                        assert(self@.holds_point(key, at));
                        assert forall|other: u64| #[trigger] self@.holds_point(
                            other,
                            at,
                        ) implies key <= other by {
                            assert(ascending(dom).contains(other));
                            let j = ascending(dom).index_of(other);
                            if j < i {
                                assert(!self@.holds_point(ascending(dom)[j], at));
                            } else if j > i {
                                assert(ascending(dom)[i as int].rank() < ascending(dom)[j].rank());
                            }
                        }
                        assert forall|other: u64| #[trigger] holds_point(
                            self@.disks,
                            other,
                            at,
                        ) implies key <= other by {
                            assert(self@.holds_point(other, at));
                        }
                        let first = self@.first_holder(at);
                        assert(holds_point(self@.disks, first, at));
                        assert(first == key);
                    }
                    return self.chunk_size.snap_chunk_count(point.state.blob.len());
                }
            }
            i = i + 1;
        }
        proof {
            let key = choose|key: u64| #[trigger] self@.holds_point(key, at);
            assert(ascending(dom).contains(key));
            let j = ascending(dom).index_of(key);
            assert(!self@.holds_point(ascending(dom)[j], at));
        }
        0
    }

    /// Whether some live node holds a clean copy of one chunk of a point.
    fn chunk_served(&self, at: u64, chunk: usize) -> (served: bool)
        ensures
            served == self@.chunk_served(at, chunk as int),
    {
        let n = self.disks.len();
        let ghost dom = self.disks@.dom();
        let mut i: usize = 0;
        proof {
            lemma_walk(dom, 0);
        }
        while i < n
            invariant
                i <= n,
                dom == self.disks@.dom(),
                n == dom.len(),
                n == ascending(dom).len(),
                lists(ascending(dom), dom),
                forall|key: u64|
                    walked(dom, i as int).contains(key) ==> !#[trigger] self@.live_clean_chunk(
                        key,
                        at,
                        chunk as int,
                    ),
            decreases n - i,
        {
            proof {
                lemma_walk(dom, i as int);
            }
            let key = self.disks.key_at(i);
            let disk = self.disks.value_at(i);
            if !self.parked.contains(key) && disk.has_point(at) && disk.chunk_clean(chunk) {
                assert(self@.live_clean_chunk(key, at, chunk as int));
                return true;
            }
            i = i + 1;
        }
        proof {
            lemma_walk(dom, n as int);
        }
        false
    }

    /// Whether the point captured at `at`, held by a live node, can be put
    /// together from clean chunks of live nodes.
    fn assemblable(&self, at: u64) -> (whole: bool)
        requires
            exists|key: u64| #[trigger] self@.live_disk(key) && self@.disks[key].has_point(at),
        ensures
            whole == self@.assemblable(at),
    {
        proof {
            let key = choose|key: u64| #[trigger]
                self@.live_disk(key) && self@.disks[key].has_point(at);
            assert(self@.holds_point(key, at));
        }
        let chunks = self.point_chunks(at);
        let mut chunk: usize = 0;
        while chunk < chunks
            invariant
                chunk <= chunks,
                chunks == self@.point_chunks(at),
                forall|c: int| 0 <= c < chunk ==> #[trigger] self@.chunk_served(at, c),
            decreases chunks - chunk,
        {
            if !self.chunk_served(at, chunk) {
                return false;
            }
            chunk = chunk + 1;
        }
        true
    }

    /// Whether `slot` has no readable copy anywhere.
    pub fn slot_unrecoverable(&self, slot: u64) -> (unrecoverable: bool)
        ensures
            unrecoverable == self@.slot_unrecoverable(slot),
    {
        if self.served(slot) {
            return false;
        }
        let n = self.disks.len();
        let ghost dom = self.disks@.dom();
        let mut i: usize = 0;
        proof {
            lemma_walk(dom, 0);
        }
        while i < n
            invariant
                i <= n,
                dom == self.disks@.dom(),
                n == dom.len(),
                n == ascending(dom).len(),
                lists(ascending(dom), dom),
                forall|key: u64| !#[trigger] self@.serves(key, slot),
                forall|key: u64, at: u64|
                    walked(dom, i as int).contains(key) && #[trigger] self@.live_disk(key)
                        && self@.disks[key].has_point(at) && at >= slot
                        ==> !#[trigger] self@.assemblable(at),
            decreases n - i,
        {
            proof {
                lemma_walk(dom, i as int);
            }
            let key = self.disks.key_at(i);
            let disk = self.disks.value_at(i);
            if !self.parked.contains(key) {
                if let Some(point) = &disk.snap_point {
                    assert(self@.live_disk(key) && self@.disks[key].has_point(point.at));
                    if point.at >= slot && self.assemblable(point.at) {
                        return false;
                    }
                }
            }
            i = i + 1;
        }
        proof {
            lemma_walk(dom, n as int);
        }
        true
    }

    /// After an injection touched `slot`, record it unrecoverable if no
    /// readable copy survives (unbudgeted runs only).
    pub fn note_if_unrecoverable(&mut self, slot: u64)
        ensures
            final(self)@ == old(self)@.note_unrecoverable(just(slot)),
    {
        if self.unbudgeted && !self.unrecoverable.contains(slot) && self.slot_unrecoverable(slot) {
            self.unrecoverable.insert(slot);
        }
        assert(self@.unrecoverable =~= old(self)@.note_unrecoverable(
            just(slot),
        ).unrecoverable);
    }

    /// The same for every slot below `floor`: the prefix a snapshot is custody
    /// of.
    pub fn note_folded_prefix(&mut self, floor: u64)
        ensures
            final(self)@ == old(self)@.note_unrecoverable(below(floor)),
    {
        let mut slot: u64 = 0;
        assert(self@.unrecoverable =~= old(self)@.note_unrecoverable(
            below(slot),
        ).unrecoverable);
        while slot < floor
            invariant
                slot <= floor,
                self@ == old(self)@.note_unrecoverable(below(slot)),
            decreases floor - slot,
        {
            proof {
                lemma_unrecoverable_frame(old(self)@, self@);
            }
            self.note_if_unrecoverable(slot);
            slot = slot + 1;
            assert(self@.unrecoverable =~= old(self)@.note_unrecoverable(
                below(slot),
            ).unrecoverable);
        }
    }

    /// A clean flush (or truncation) genuinely resolved the standing report on
    /// `(node, record)`.
    pub fn note_recovered(&mut self, node: u64, record: StorageRecord)
        ensures
            final(self)@ == old(self)@.note_recovered(node, record),
    {
        if recover_entries(&mut self.corruptions, node, record) {
            self.see(Sighting::RecordRecovered);
        }
    }

    /// Record one corruption injection.
    pub fn note_corruption(&mut self, injection: CorruptionInjection)
        ensures
            final(self)@ == old(self)@.note_corruption(injection),
    {
        self.corruptions.push(injection);
    }

    /// Resolve the dormant entries matching `(node, record)`: a scan read them
    /// back. The first match takes `outcome`, further matches are co-detected.
    pub fn resolve_corruption(&mut self, node: u64, record: StorageRecord, outcome: CorruptionOutcome)
        ensures
            final(self)@ == old(self)@.resolve(node, record, outcome),
    {
        if resolve_entries(&mut self.corruptions, node, record, outcome) {
            self.see(Sighting::BlockDetected);
        }
    }

    /// Mark `slots` on `key`.
    pub fn mark(&mut self, key: u64, slots: &OrdSet<u64>)
        ensures
            final(self)@ == old(self)@.mark(key, slots@),
    {
        let mut marks = match self.marks.remove(key) {
            Some(marks) => marks,
            None => OrdSet::new(),
        };
        marks.extend(slots);
        self.marks.insert(key, marks);
        assert(self@.marks =~= old(self)@.mark(key, slots@).marks);
    }

    /// Mark one slot on `key`.
    pub fn mark_slot(&mut self, key: u64, slot: u64)
        ensures
            final(self)@ == old(self)@.mark(key, set![slot]),
    {
        let mut slots: OrdSet<u64> = OrdSet::new();
        slots.insert(slot);
        assert(slots@ =~= set![slot]);
        self.mark(key, &slots);
    }

    /// A clean flush re-wrote these accepted records on `key`: their marks
    /// clear. This is recovery doing its job, not the world healing anything.
    pub fn clear_marks(&mut self, key: u64, slots: &OrdSet<u64>)
        ensures
            final(self)@ == old(self)@.clear_marks(key, slots@),
    {
        if let Some(mut marks) = self.marks.remove(key) {
            let ghost before = marks@;
            let n = slots.len();
            let mut i: usize = 0;
            proof {
                lemma_walk(slots@, 0);
                assert(marks@ =~= before.difference(walked(slots@, 0)));
            }
            while i < n
                invariant
                    i <= n,
                    n == slots@.len(),
                    n == ascending(slots@).len(),
                    lists(ascending(slots@), slots@),
                    marks@ == before.difference(walked(slots@, i as int)),
                decreases n - i,
            {
                proof {
                    lemma_walk(slots@, i as int);
                }
                marks.remove(slots.at(i));
                i = i + 1;
                assert(marks@ =~= before.difference(walked(slots@, i as int)));
            }
            proof {
                lemma_walk(slots@, n as int);
            }
            self.marks.insert(key, marks);
            assert(self@.marks =~= old(self)@.clear_marks(key, slots@).marks);
        } else {
            assert(self@.marks =~= old(self)@.marks);
        }
    }

    /// A floor raise retires the marks of the records it drops: truncation is
    /// only ever decided for the applied prefix, so the information has moved
    /// into the application state.
    pub fn retire_marks(&mut self, key: u64, floor: u64)
        ensures
            final(self)@ == old(self)@.retire_marks(key, floor),
    {
        if let Some(mut marks) = self.marks.remove(key) {
            let ghost before = marks@;
            marks.retain_from(floor);
            assert(marks@ =~= before.filter(|slot: u64| slot >= floor));
            self.marks.insert(key, marks);
            assert(self@.marks =~= old(self)@.retire_marks(key, floor).marks);
        } else {
            assert(self@.marks =~= old(self)@.marks);
        }
    }

    /// Whether suppressing `slots` would leave `key` no clean accepted record.
    fn blankets(&self, key: u64, slots: &Vec<u64>) -> (blankets: bool)
        ensures
            blankets == self@.blankets(key, slots@),
    {
        match self.disks.get(key) {
            None => false,
            Some(disk) => {
                let n = disk.accepted.len();
                let ghost dom = disk.accepted@.dom();
                if n == 0 {
                    proof {
                        lemma_walk(dom, 0);
                        assert forall|slot: u64| !#[trigger]
                            self@.disks[key].accepted.contains_key(slot) by {
                            assert(walked(dom, 0).contains(slot) == dom.contains(slot));
                        }
                    }
                    return false;
                }
                let mut i: usize = 0;
                proof {
                    lemma_walk(dom, 0);
                    assert(self@.disks[key].accepted.contains_key(ascending(dom)[0]));
                }
                while i < n
                    invariant
                        i <= n,
                        self@.disks.contains_key(key),
                        self@.disks[key] == disk@,
                        dom == disk.accepted@.dom(),
                        n == dom.len(),
                        n == ascending(dom).len(),
                        lists(ascending(dom), dom),
                        forall|slot: u64| #[trigger]
                            walked(dom, i as int).contains(slot) ==> slots@.contains(slot)
                                || self@.marked(key, slot),
                    decreases n - i,
                {
                    proof {
                        lemma_walk(dom, i as int);
                    }
                    let slot = disk.accepted.key_at(i);
                    if !self.is_marked(key, slot) && !contains_slot(slots, slot) {
                        assert(self@.disks[key].accepted.contains_key(slot));
                        return false;
                    }
                    i = i + 1;
                }
                proof {
                    lemma_walk(dom, n as int);
                    assert forall|slot: u64| #[trigger]
                        self@.disks[key].accepted.contains_key(slot) implies slots@.contains(slot)
                        || self@.marked(key, slot) by {
                        assert(walked(dom, n as int).contains(slot));
                    }
                }
                true
            },
        }
    }

    /// Decide one injection under the budget. `accepted_slots` are the records
    /// the fault would suppress on `key` when the lost leg is taken; the check
    /// hypothesizes the loss even when the effect persisted. Whether the
    /// injection is permitted; if so, its ground truth and marks are recorded.
    pub fn permit_and_record(
        &mut self,
        key: u64,
        fault: InjectedFault,
        accepted_slots: &Vec<u64>,
    ) -> (permitted: bool)
        ensures
            permitted == old(self)@.permits(key, accepted_slots@),
            final(self)@ == old(self)@.permit_and_record(key, fault, accepted_slots@),
    {
        if self.cluster_size == 0 {
            return false;
        }
        let quorum = self.quorum();
        let mut i: usize = 0;
        while i < accepted_slots.len()
            invariant
                i <= accepted_slots@.len(),
                self@ == old(self)@,
                quorum == self@.quorum(),
                forall|j: int|
                    0 <= j < i ==> self@.copies_without(key, #[trigger] accepted_slots@[j])
                        >= quorum,
            decreases accepted_slots@.len() - i,
        {
            if self.copies_without(key, accepted_slots[i]) < quorum {
                return false;
            }
            i = i + 1;
        }
        if self.blankets(key, accepted_slots) {
            return false;
        }
        if !fault.persisted {
            let slots = slot_set(accepted_slots);
            self.mark(key, &slots);
        }
        self.injected.push(fault);
        true
    }

    /// Targeted, budget-checked corruption of one durable record. Whether the
    /// budget permitted it and there was such a record to corrupt.
    pub fn corrupt(&mut self, key: u64, node: u64, record: StorageRecord) -> (corrupted: bool)
        ensures
            corrupted == old(self)@.may_corrupt(key, record),
            final(self)@ == old(self)@.corrupt(key, node, record),
    {
        if !self.may_park(key) {
            return false;
        }
        if !self.disks.contains(key) {
            return false;
        }
        let mut disk = self.take_disk(key);
        let ghost before = disk@;
        let mut corrupted = true;
        let mut kind = CorruptionKind::BitFlip;
        match record {
            StorageRecord::Accepted(slot) => {
                if disk.accepted.contains(slot) {
                    disk.entry_health.insert(
                        slot,
                        SlotHealth { entry: RecordHealth::Faulty, id: WitnessStatus::Present },
                    );
                } else {
                    corrupted = false;
                }
            },
            StorageRecord::Promise => {
                disk.promise_health = (RecordHealth::Faulty, RecordHealth::Faulty);
                kind = CorruptionKind::PromiseCopy;
            },
            StorageRecord::ChosenIndex => {
                disk.chosen_health = RecordHealth::Faulty;
            },
            StorageRecord::Truncation => {
                disk.truncation_health = RecordHealth::Faulty;
            },
            StorageRecord::Snapshot => {
                disk.snapshot_health = RecordHealth::Faulty;
            },
            _ => {
                corrupted = false;
            },
        }
        self.put_disk(key, disk);
        if !corrupted {
            assert(self@.disks =~= old(self)@.disks);
            return false;
        }
        assert(disk@ == rotten(before, record));
        assert(self@.disks =~= old(self)@.with_disk(key, disk@).disks);
        if let StorageRecord::Accepted(slot) = record {
            self.mark_slot(key, slot);
        }
        self.park(key, node);
        self.note_corruption(
            CorruptionInjection {
                node,
                record,
                kind,
                block: false,
                outcome: CorruptionOutcome::Dormant,
            },
        );
        true
    }
}

/// Recover every standing entry on `(node, record)`; whether there was one.
fn recover_entries(list: &mut Vec<CorruptionInjection>, node: u64, record: StorageRecord) -> (any:
    bool)
    ensures
        final(list)@ == recovered(old(list)@, node, only(record)),
        any == any_open(old(list)@, node, only(record)),
{
    let ghost before = list@;
    let ghost named = only(record);
    let n = list.len();
    let mut any = false;
    let mut i: usize = 0;
    while i < n
        invariant
            i <= n,
            n == before.len(),
            list@.len() == n,
            named == only(record),
            any == exists|j: int| #[trigger] open_at(before, node, named, j) && j < i,
            forall|j: int|
                0 <= j < i ==> #[trigger] list@[j] == recovered(before, node, named)[j],
            forall|j: int| i <= j < n ==> #[trigger] list@[j] == before[j],
        decreases n - i,
    {
        let injection = list[i];
        let standing = injection.node == node && injection.record == record && (injection.outcome
            == CorruptionOutcome::Dormant || injection.outcome == CorruptionOutcome::Reported);
        assert(standing == open_at(before, node, named, i as int));
        if standing {
            list.set(i, CorruptionInjection { outcome: CorruptionOutcome::Recovered, ..injection });
            any = true;
        }
        i = i + 1;
    }
    assert(list@ =~= recovered(before, node, named));
    any
}

/// Recovering two families of records one after the other recovers both.
pub proof fn lemma_recover_both(
    w: WorldView,
    node: u64,
    first: spec_fn(StorageRecord) -> bool,
    second: spec_fn(StorageRecord) -> bool,
    both: spec_fn(StorageRecord) -> bool,
)
    requires
        forall|r: StorageRecord| #[trigger] both(r) == (first(r) || second(r)),
    ensures
        w.note_recovered_all(node, first).note_recovered_all(node, second)
            == w.note_recovered_all(node, both),
{
    let c = w.corruptions;
    let once = recovered(c, node, first);
    let twice = recovered(once, node, second);
    assert(twice =~= recovered(c, node, both)) by {
        assert forall|i: int| 0 <= i < c.len() implies #[trigger] twice[i] == recovered(
            c,
            node,
            both,
        )[i] by {
            assert(both(c[i].record) == (first(c[i].record) || second(c[i].record)));
            assert(once[i].record == c[i].record);
        }
    }
    if any_open(c, node, both) {
        let i = choose|i: int| #[trigger] open_at(c, node, both, i);
        assert(both(c[i].record) == (first(c[i].record) || second(c[i].record)));
        if first(c[i].record) {
            assert(open_at(c, node, first, i));
        } else {
            assert(once[i] == c[i]);
            assert(open_at(once, node, second, i));
        }
    }
    if any_open(c, node, first) {
        let i = choose|i: int| #[trigger] open_at(c, node, first, i);
        assert(both(c[i].record));
        assert(open_at(c, node, both, i));
    }
    if any_open(once, node, second) {
        let i = choose|i: int| #[trigger] open_at(once, node, second, i);
        assert(once[i].record == c[i].record);
        assert(both(c[i].record) == (first(c[i].record) || second(c[i].record)));
        assert(open_at(c, node, both, i));
    }
    assert(w.seen.insert(Sighting::RecordRecovered).insert(Sighting::RecordRecovered)
        =~= w.seen.insert(Sighting::RecordRecovered));
}

/// Recovering the same records, said two ways, is the same.
pub proof fn lemma_recover_same(
    w: WorldView,
    node: u64,
    a: spec_fn(StorageRecord) -> bool,
    b: spec_fn(StorageRecord) -> bool,
)
    requires
        forall|r: StorageRecord| #[trigger] a(r) == b(r),
    ensures
        w.note_recovered_all(node, a) == w.note_recovered_all(node, b),
{
    assert(a =~= b);
}

/// Resolve every dormant entry on `(node, record)`; whether one of them was a
/// member of a block fault.
fn resolve_entries(
    list: &mut Vec<CorruptionInjection>,
    node: u64,
    record: StorageRecord,
    outcome: CorruptionOutcome,
) -> (block: bool)
    ensures
        final(list)@ == resolved(old(list)@, node, record, outcome),
        block == dormant_block(old(list)@, node, record),
{
    let ghost before = list@;
    let n = list.len();
    let mut block = false;
    let mut first = true;
    let mut i: usize = 0;
    while i < n
        invariant
            i <= n,
            n == before.len(),
            list@.len() == n,
            block == exists|j: int|
                j < i && #[trigger] dormant_at(before, node, record, j) && before[j].block,
            first == !exists|j: int| j < i && #[trigger] dormant_at(before, node, record, j),
            forall|j: int|
                0 <= j < i ==> #[trigger] list@[j] == resolved(before, node, record, outcome)[j],
            forall|j: int| i <= j < n ==> #[trigger] list@[j] == before[j],
        decreases n - i,
    {
        let injection = list[i];
        let dormant = injection.node == node && injection.record == record && injection.outcome
            == CorruptionOutcome::Dormant;
        assert(dormant == dormant_at(before, node, record, i as int));
        if dormant {
            let outcome = if first {
                outcome
            } else {
                CorruptionOutcome::CoDetected
            };
            list.set(i, CorruptionInjection { outcome, ..injection });
            first = false;
            if injection.block {
                block = true;
            }
        }
        i = i + 1;
    }
    assert(list@ =~= resolved(before, node, record, outcome));
    block
}

/// The unrecoverable ground truth is derived from the disks and the parked
/// nodes alone.
pub proof fn lemma_unrecoverable_frame(a: WorldView, b: WorldView)
    requires
        a.disks == b.disks,
        a.parked == b.parked,
        a.chunk_bytes == b.chunk_bytes,
    ensures
        forall|slot: u64| #[trigger] a.slot_unrecoverable(slot) == b.slot_unrecoverable(slot),
{
    assert forall|key: u64, slot: u64| #[trigger] a.serves(key, slot) == b.serves(key, slot) by {}
    assert forall|key: u64, at: u64, chunk: int| #[trigger]
        a.live_clean_chunk(key, at, chunk) == b.live_clean_chunk(key, at, chunk) by {}
    assert forall|at: u64| #[trigger] a.assemblable(at) == b.assemblable(at) by {
        assert(a.point_chunks(at) == b.point_chunks(at));
        assert forall|chunk: int| #[trigger]
            a.chunk_served(at, chunk) == b.chunk_served(at, chunk) by {
            if a.chunk_served(at, chunk) {
                let key = choose|key: u64| #[trigger] a.live_clean_chunk(key, at, chunk);
                assert(b.live_clean_chunk(key, at, chunk));
            }
            if b.chunk_served(at, chunk) {
                let key = choose|key: u64| #[trigger] b.live_clean_chunk(key, at, chunk);
                assert(a.live_clean_chunk(key, at, chunk));
            }
        }
        if a.assemblable(at) {
            let key = choose|key: u64| #[trigger] a.live_disk(key) && a.disks[key].has_point(at);
            assert(b.live_disk(key) && b.disks[key].has_point(at));
            assert forall|chunk: int| 0 <= chunk < b.point_chunks(at) implies
                #[trigger] b.chunk_served(at, chunk) by {
                assert(a.chunk_served(at, chunk));
            }
        }
        if b.assemblable(at) {
            let key = choose|key: u64| #[trigger] b.live_disk(key) && b.disks[key].has_point(at);
            assert(a.live_disk(key) && a.disks[key].has_point(at));
            assert forall|chunk: int| 0 <= chunk < a.point_chunks(at) implies
                #[trigger] a.chunk_served(at, chunk) by {
                assert(b.chunk_served(at, chunk));
            }
        }
    }    assert forall|slot: u64| #[trigger] a.slot_unrecoverable(slot) == b.slot_unrecoverable(
        slot,
    ) by {
        if a.slot_unrecoverable(slot) {
            assert forall|key: u64| !#[trigger] b.serves(key, slot) by {
                assert(!a.serves(key, slot));
            }
            assert forall|at: u64| at >= slot implies !#[trigger] b.assemblable(at) by {
                assert(!a.assemblable(at));
            }
        }
        if b.slot_unrecoverable(slot) {
            assert forall|key: u64| !#[trigger] a.serves(key, slot) by {
                assert(!b.serves(key, slot));
            }
            assert forall|at: u64| at >= slot implies !#[trigger] a.assemblable(at) by {
                assert(!b.assemblable(at));
            }
        }
    }
}

/// The disk with one record's bytes rotted, its identity intact.
pub open spec fn rotten(disk: DiskView, record: StorageRecord) -> DiskView {
    match record {
        StorageRecord::Accepted(slot) => DiskView {
            entry_health: disk.entry_health.insert(
                slot,
                SlotHealth { entry: RecordHealth::Faulty, id: WitnessStatus::Present },
            ),
            ..disk
        },
        StorageRecord::Promise => DiskView {
            promise_health: (RecordHealth::Faulty, RecordHealth::Faulty),
            ..disk
        },
        StorageRecord::ChosenIndex => DiskView { chosen_health: RecordHealth::Faulty, ..disk },
        StorageRecord::Truncation => DiskView { truncation_health: RecordHealth::Faulty, ..disk },
        StorageRecord::Snapshot => DiskView { snapshot_health: RecordHealth::Faulty, ..disk },
        _ => disk,
    }
}

impl WorldView {
    /// A targeted corruption is inside the dead-node budget and names a record
    /// the node holds.
    pub open spec fn may_corrupt(self, key: u64, record: StorageRecord) -> bool {
        &&& self.may_park(key)
        &&& self.disks.contains_key(key)
        &&& match record {
            StorageRecord::Accepted(slot) => self.disks[key].accepted.contains_key(slot),
            StorageRecord::Promise
            | StorageRecord::ChosenIndex
            | StorageRecord::Truncation
            | StorageRecord::Snapshot => true,
            _ => false,
        }
    }

    /// The world after a targeted corruption: the record rotted, an accepted
    /// one marked, the node parked, the injection on the ledger.
    pub open spec fn corrupt(self, key: u64, node: u64, record: StorageRecord) -> WorldView {
        if !self.may_corrupt(key, record) {
            self
        } else {
            let rotted = self.with_disk(key, rotten(self.disks[key], record));
            let marked = match record {
                StorageRecord::Accepted(slot) => rotted.mark(key, set![slot]),
                _ => rotted,
            };
            marked.park(key, node).note_corruption(
                CorruptionInjection {
                    node,
                    record,
                    kind: if record == StorageRecord::Promise {
                        CorruptionKind::PromiseCopy
                    } else {
                        CorruptionKind::BitFlip
                    },
                    block: false,
                    outcome: CorruptionOutcome::Dormant,
                },
            )
        }
    }
}

fn contains_slot(slots: &Vec<u64>, slot: u64) -> (held: bool)
    ensures
        held == slots@.contains(slot),
{
    let mut i: usize = 0;
    while i < slots.len()
        invariant
            i <= slots@.len(),
            forall|j: int| 0 <= j < i ==> slots@[j] != slot,
        decreases slots@.len() - i,
    {
        if slots[i] == slot {
            return true;
        }
        i = i + 1;
    }
    false
}

/// The members of a list.
pub fn slot_set(slots: &Vec<u64>) -> (set: OrdSet<u64>)
    ensures
        set@ == slots@.to_set(),
{
    let mut set: OrdSet<u64> = OrdSet::new();
    let mut i: usize = 0;
    assert(set@ =~= slots@.take(0).to_set());
    while i < slots.len()
        invariant
            i <= slots@.len(),
            set@ == slots@.take(i as int).to_set(),
        decreases slots@.len() - i,
    {
        let ghost before = slots@.take(i as int);
        set.insert(slots[i]);
        i = i + 1;
        proof {
            let after = slots@.take(i as int);
            assert(after =~= before.push(slots@[i - 1]));
            assert forall|slot: u64| after.contains(slot) <==> before.contains(slot) || slot
                == slots@[i - 1] by {
                if before.contains(slot) {
                    let j = before.index_of(slot);
                    assert(after[j] == slot);
                }
                if slot == slots@[i - 1] {
                    assert(after[i - 1] == slot);
                }
            }
            assert(set@ =~= after.to_set());
        }
    }
    assert(slots@.take(i as int) =~= slots@);
    set
}

} // verus!
