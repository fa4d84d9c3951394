//! Masks over the chunks of a retained snapshot point, and the fold that rots
//! every custody of a truncated prefix.
use crate::disk::{DiskView, RecordHealth};
use crate::ledger::rotten;
use crate::masks::{CORPUS_NODES, FOLDED_SLOTS, Injected, cluster, restartable, restarted, within};
use crate::ordered::OrdSet;
use crate::probe::{law_chunk_rot_strands_nothing, law_snapshot_rot_needs_last_custodian};
use crate::records::{StorageRecord, chunks_of};
use crate::world::{StorageWorld, WorldView, below, first_holder, holds_point};
use vstd::prelude::*;

verus! {

/// The most chunks whose grid a mask's bits can hold.
pub const MAX_MASK_CHUNKS: u32 = 10;

/// The mask rots `node`'s copy of `chunk`.
pub open spec fn chunk_masked(mask: u32, chunks: int, node: int, chunk: int) -> bool {
    mask & (1u32 << ((node * chunks + chunk) as u32)) != 0
}

pub fn is_chunk_masked(mask: u32, chunks: u32, node: u32, chunk: u32) -> (hit: bool)
    requires
        chunks <= MAX_MASK_CHUNKS,
        node < CORPUS_NODES,
        chunk < chunks,
    ensures
        hit == chunk_masked(mask, chunks as int, node as int, chunk as int),
{
    let bit: u32 = if node == 0 {
        chunk
    } else if node == 1 {
        chunks + chunk
    } else {
        2 * chunks + chunk
    };
    proof {
        let (n, c) = (node as int, chunks as int);
        assert(node == 0 ==> n * c == 0) by (nonlinear_arith)
            requires
                n == node,
        ;
        assert(node == 1 ==> n * c == c) by (nonlinear_arith)
            requires
                n == node,
        ;
        assert(node == 2 ==> n * c == 2 * c) by (nonlinear_arith)
            requires
                n == node,
        ;
    }
    mask & (1u32 << bit) != 0
}

/// No clean copy of `chunk` is left.
pub open spec fn unassemblable(mask: u32, chunks: int, chunk: u32) -> bool {
    chunk < chunks && forall|node: int|
        0 <= node < CORPUS_NODES ==> #[trigger] chunk_masked(mask, chunks, node, chunk as int)
}

/// The chunks a mask leaves without a clean copy.
pub fn derive_unassemblable(mask: u32, chunks: u32) -> (lost: OrdSet<u32>)
    requires
        chunks <= MAX_MASK_CHUNKS,
    ensures
        lost@ == Set::new(|chunk: u32| unassemblable(mask, chunks as int, chunk)),
{
    let mut lost: OrdSet<u32> = OrdSet::new();
    let mut chunk: u32 = 0;
    while chunk < chunks
        invariant
            chunk <= chunks <= MAX_MASK_CHUNKS,
            forall|c: u32| #[trigger]
                lost@.contains(c) <==> c < chunk && unassemblable(mask, chunks as int, c),
        decreases chunks - chunk,
    {
        let all = is_chunk_masked(mask, chunks, 0, chunk) && is_chunk_masked(mask, chunks, 1, chunk)
            && is_chunk_masked(mask, chunks, 2, chunk);
        proof {
            if all {
                assert forall|node: int| 0 <= node < CORPUS_NODES implies #[trigger] chunk_masked(
                    mask,
                    chunks as int,
                    node,
                    chunk as int,
                ) by {
                    assert(node == 0 || node == 1 || node == 2);
                }
            } else {
                assert(!(chunk_masked(mask, chunks as int, 0, chunk as int) && chunk_masked(
                    mask,
                    chunks as int,
                    1,
                    chunk as int,
                ) && chunk_masked(mask, chunks as int, 2, chunk as int)));
            }
        }
        if all {
            lost.insert(chunk);
        }
        chunk = chunk + 1;
    }
    assert(lost@ =~= Set::new(|chunk: u32| unassemblable(mask, chunks as int, chunk)));
    lost
}

/// How many masks the grid has.
pub fn chunk_mask_space(chunks: u32) -> (space: u32)
    requires
        chunks <= MAX_MASK_CHUNKS,
    ensures
        space == 1u32 << ((CORPUS_NODES * chunks) as u32),
        space > 0,
{
    let bits: u32 = 3 * chunks;
    assert(bits <= 30 ==> 1u32 << bits > 0) by (bit_vector);
    1u32 << bits
}

/// The world with the masked copies of `chunk` on the first `n` nodes rotted.
pub open spec fn rot_chunk_row(
    w: WorldView,
    keys: Seq<u64>,
    mask: u32,
    chunks: int,
    chunk: u32,
    n: nat,
) -> WorldView
    decreases n,
{
    if n == 0 {
        w
    } else {
        let before = rot_chunk_row(w, keys, mask, chunks, chunk, (n - 1) as nat);
        if chunk_masked(mask, chunks, n - 1, chunk as int) {
            before.corrupt_snap_chunk(keys[n - 1], (n - 1) as u64, chunk)
        } else {
            before
        }
    }
}

/// Each of those injections found a clean chunk.
pub open spec fn chunk_row_lands(
    w: WorldView,
    keys: Seq<u64>,
    mask: u32,
    chunks: int,
    chunk: u32,
    n: nat,
) -> bool
    decreases n,
{
    n > 0 ==> {
        &&& chunk_row_lands(w, keys, mask, chunks, chunk, (n - 1) as nat)
        &&& chunk_masked(mask, chunks, n - 1, chunk as int) ==> rot_chunk_row(
            w,
            keys,
            mask,
            chunks,
            chunk,
            (n - 1) as nat,
        ).chunk_corruptible(keys[n - 1], chunk)
    }
}

/// The world with the masked copies of the first `c` chunks rotted.
pub open spec fn rot_chunk_rows(
    w: WorldView,
    keys: Seq<u64>,
    mask: u32,
    chunks: int,
    c: nat,
) -> WorldView
    decreases c,
{
    if c == 0 {
        w
    } else {
        rot_chunk_row(
            rot_chunk_rows(w, keys, mask, chunks, (c - 1) as nat),
            keys,
            mask,
            chunks,
            (c - 1) as u32,
            CORPUS_NODES as nat,
        )
    }
}

pub open spec fn chunk_rows_land(
    w: WorldView,
    keys: Seq<u64>,
    mask: u32,
    chunks: int,
    c: nat,
) -> bool
    decreases c,
{
    c > 0 ==> {
        &&& chunk_rows_land(w, keys, mask, chunks, (c - 1) as nat)
        &&& chunk_row_lands(
            rot_chunk_rows(w, keys, mask, chunks, (c - 1) as nat),
            keys,
            mask,
            chunks,
            (c - 1) as u32,
            CORPUS_NODES as nat,
        )
    }
}

/// The world a chunk mask leaves, before the restarts; with `rot_live`, the
/// first node's live snapshot is rotted too.
pub open spec fn rot_chunk_mask(
    w: WorldView,
    keys: Seq<u64>,
    mask: u32,
    chunks: int,
    rot_live: bool,
) -> WorldView {
    let rotted = rot_chunk_rows(w, keys, mask, chunks, chunks as nat);
    if rot_live {
        rotted.corrupt_snapshot(keys[0], 0)
    } else {
        rotted
    }
}

proof fn lemma_chunk_row_keeps_epochs(
    w: WorldView,
    keys: Seq<u64>,
    mask: u32,
    chunks: int,
    chunk: u32,
    n: nat,
)
    ensures
        rot_chunk_row(w, keys, mask, chunks, chunk, n).restart_epochs == w.restart_epochs,
    decreases n,
{
    if n > 0 {
        lemma_chunk_row_keeps_epochs(w, keys, mask, chunks, chunk, (n - 1) as nat);
    }
}

impl StorageWorld {
    fn rot_masked_chunk_row(&mut self, keys: &Vec<u64>, mask: u32, chunks: u32, chunk: u32) -> (landed:
        bool)
        requires
            cluster(keys@),
            chunk < chunks <= MAX_MASK_CHUNKS,
        ensures
            final(self)@ == rot_chunk_row(
                old(self)@,
                keys@,
                mask,
                chunks as int,
                chunk,
                CORPUS_NODES as nat,
            ),
            landed == chunk_row_lands(
                old(self)@,
                keys@,
                mask,
                chunks as int,
                chunk,
                CORPUS_NODES as nat,
            ),
    {
        let mut landed = true;
        let mut i: usize = 0;
        while i < CORPUS_NODES
            invariant
                i <= CORPUS_NODES,
                keys@.len() == CORPUS_NODES,
                chunk < chunks <= MAX_MASK_CHUNKS,
                self@ == rot_chunk_row(old(self)@, keys@, mask, chunks as int, chunk, i as nat),
                landed == chunk_row_lands(
                    old(self)@,
                    keys@,
                    mask,
                    chunks as int,
                    chunk,
                    i as nat,
                ),
            decreases CORPUS_NODES - i,
        {
            if is_chunk_masked(mask, chunks, i as u32, chunk) {
                let lands = self.corpus_corrupt_snap_chunk(keys[i], i as u64, chunk);
                landed = landed && lands;
            }
            i = i + 1;
        }
        landed
    }

    /// Rot the masked chunks, and the first node's live snapshot where asked,
    /// and restart every node. Chunk rot alone must strand no slot.
    pub fn inject_chunk_mask(&mut self, keys: &Vec<u64>, chunks: u32, mask: u32, rot_live: bool) -> (injected:
        Injected)
        requires
            cluster(keys@),
            restartable(old(self)@, keys@),
            chunks <= MAX_MASK_CHUNKS,
        ensures
            ({
                let rotted = rot_chunk_mask(old(self)@, keys@, mask, chunks as int, rot_live);
                &&& final(self)@ == restarted(rotted, keys@, CORPUS_NODES as nat)
                &&& injected.landed == chunk_rows_land(
                    old(self)@,
                    keys@,
                    mask,
                    chunks as int,
                    chunks as nat,
                )
                &&& injected.agrees == (rotted.unrecoverable == Set::<u64>::empty())
            }),
    {
        let mut landed = true;
        let mut chunk: u32 = 0;
        while chunk < chunks
            invariant
                chunk <= chunks <= MAX_MASK_CHUNKS,
                cluster(keys@),
                self@ == rot_chunk_rows(old(self)@, keys@, mask, chunks as int, chunk as nat),
                self@.restart_epochs == old(self)@.restart_epochs,
                landed == chunk_rows_land(
                    old(self)@,
                    keys@,
                    mask,
                    chunks as int,
                    chunk as nat,
                ),
            decreases chunks - chunk,
        {
            proof {
                lemma_chunk_row_keeps_epochs(
                    self@,
                    keys@,
                    mask,
                    chunks as int,
                    chunk,
                    CORPUS_NODES as nat,
                );
            }
            let lands = self.rot_masked_chunk_row(keys, mask, chunks, chunk);
            landed = landed && lands;
            chunk = chunk + 1;
        }
        if rot_live {
            self.corpus_corrupt_snapshot(keys[0], 0);
        }
        let truth = self.unrecoverable_slots();
        let agrees = truth.is_empty();
        proof {
            assert forall|i: int| 0 <= i < keys@.len() implies self@.epoch(#[trigger] keys@[i])
                < u64::MAX by {
                assert(old(self)@.epoch(keys@[i]) < u64::MAX);
            }
        }
        self.restart_first(keys, CORPUS_NODES);
        Injected { landed, agrees }
    }
}

/// A cluster that retains one decided point on every node, with every live
/// snapshot clean.
pub open spec fn pointed(w: WorldView, keys: Seq<u64>, chunks: int) -> bool {
    &&& cluster(keys)
    &&& forall|i: int|
        0 <= i < CORPUS_NODES ==> pointed_disk(
            w,
            #[trigger] keys[i],
            w.disks[keys[0]].first_slot,
            chunks,
        )
}

pub open spec fn pointed_disk(w: WorldView, key: u64, floor: u64, chunks: int) -> bool {
    &&& w.live_disk(key)
    &&& w.disks[key].first_slot == floor
    &&& w.disks[key].snapshot_health == RecordHealth::Clean
    &&& w.disks[key].snap_point is Some
    &&& chunks_of(w.disks[key].snap_point->0.state.blob.len(), w.chunk_bytes) == chunks
}

/// Node `i` holds `chunk` clean.
pub open spec fn chunk_at(w: WorldView, keys: Seq<u64>, i: int, chunk: int) -> bool {
    w.disks[keys[i]].chunk_clean(chunk)
}

proof fn lemma_rot_chunk_cell(w: WorldView, keys: Seq<u64>, chunks: int, node: int, chunk: u32)
    requires
        pointed(w, keys, chunks),
        0 <= node < CORPUS_NODES,
        chunk < chunks,
        chunk_at(w, keys, node, chunk as int),
    ensures
        w.chunk_corruptible(keys[node], chunk),
        ({
            let v = w.corrupt_snap_chunk(keys[node], node as u64, chunk);
            &&& pointed(v, keys, chunks)
            &&& v.unrecoverable == w.unrecoverable
            &&& forall|i: int, c: int|
                0 <= i < CORPUS_NODES && 0 <= c < chunks ==> #[trigger] chunk_at(v, keys, i, c) == (
                chunk_at(w, keys, i, c) && !(i == node && c == chunk))
        }),
{
    let floor = w.disks[keys[0]].first_slot;
    assert(pointed_disk(w, keys[0], floor, chunks) && pointed_disk(w, keys[1], floor, chunks)
        && pointed_disk(w, keys[node], floor, chunks));
    law_chunk_rot_strands_nothing(w, keys[node], node as u64, chunk, keys[1]);
    let v = w.corrupt_snap_chunk(keys[node], node as u64, chunk);
    let listed = w.listed_chunks(keys[node]);
    let rotted = DiskView {
        snap_chunk_health: listed.snap_chunk_health.update(chunk as int, RecordHealth::Faulty),
        ..listed
    };
    assert(v.disks == w.disks.insert(keys[node], rotted));
    assert(v.disks[keys[0]].first_slot == floor);
    assert forall|i: int| 0 <= i < CORPUS_NODES implies pointed_disk(
        v,
        #[trigger] keys[i],
        floor,
        chunks,
    ) by {
        assert(pointed_disk(w, keys[i], floor, chunks));
    }
    assert forall|i: int, c: int|
        0 <= i < CORPUS_NODES && 0 <= c < chunks implies #[trigger] chunk_at(v, keys, i, c) == (
    chunk_at(w, keys, i, c) && !(i == node && c == chunk)) by {
        if i != node {
            assert(keys[i] != keys[node]);
        }
    }
}

proof fn lemma_rot_masked_chunk_row(
    w: WorldView,
    keys: Seq<u64>,
    mask: u32,
    chunks: int,
    chunk: u32,
    n: nat,
)
    requires
        pointed(w, keys, chunks),
        n <= CORPUS_NODES,
        chunk < chunks,
        forall|i: int| 0 <= i < CORPUS_NODES ==> #[trigger] chunk_at(w, keys, i, chunk as int),
    ensures
        chunk_row_lands(w, keys, mask, chunks, chunk, n),
        ({
            let v = rot_chunk_row(w, keys, mask, chunks, chunk, n);
            &&& pointed(v, keys, chunks)
            &&& v.unrecoverable == w.unrecoverable
            &&& forall|i: int, c: int|
                0 <= i < CORPUS_NODES && 0 <= c < chunks ==> #[trigger] chunk_at(v, keys, i, c) == (
                chunk_at(w, keys, i, c) && !(c == chunk && i < n && chunk_masked(
                    mask,
                    chunks,
                    i,
                    chunk as int,
                )))
        }),
    decreases n,
{
    if n > 0 {
        let m = (n - 1) as nat;
        lemma_rot_masked_chunk_row(w, keys, mask, chunks, chunk, m);
        let u = rot_chunk_row(w, keys, mask, chunks, chunk, m);
        assert(chunk_at(w, keys, n - 1, chunk as int));
        assert(chunk_at(u, keys, n - 1, chunk as int));
        if chunk_masked(mask, chunks, n - 1, chunk as int) {
            lemma_rot_chunk_cell(u, keys, chunks, n - 1, chunk);
        }
    }
}

proof fn lemma_rot_masked_chunk_rows(
    w: WorldView,
    keys: Seq<u64>,
    mask: u32,
    chunks: int,
    c: nat,
)
    requires
        pointed(w, keys, chunks),
        c <= chunks <= MAX_MASK_CHUNKS,
        forall|i: int, chunk: int|
            0 <= i < CORPUS_NODES && 0 <= chunk < chunks ==> #[trigger] chunk_at(w, keys, i, chunk),
    ensures
        chunk_rows_land(w, keys, mask, chunks, c),
        ({
            let v = rot_chunk_rows(w, keys, mask, chunks, c);
            &&& pointed(v, keys, chunks)
            &&& v.unrecoverable == w.unrecoverable
            &&& forall|i: int, chunk: int|
                0 <= i < CORPUS_NODES && 0 <= chunk < chunks ==> #[trigger] chunk_at(
                    v,
                    keys,
                    i,
                    chunk,
                ) == !(chunk < c && chunk_masked(mask, chunks, i, chunk))
        }),
    decreases c,
{
    if c > 0 {
        let m = (c - 1) as nat;
        lemma_rot_masked_chunk_rows(w, keys, mask, chunks, m);
        lemma_rot_masked_chunk_row(
            rot_chunk_rows(w, keys, mask, chunks, m),
            keys,
            mask,
            chunks,
            m as u32,
            CORPUS_NODES as nat,
        );
    }
}

/// Chunk rot alone strands nothing: on a cluster that retains the decided point
/// everywhere, every injection of a chunk mask lands, and no slot becomes
/// unrecoverable, even with one live snapshot rotted on top.
pub proof fn law_chunk_mask_strands_nothing(
    w: WorldView,
    keys: Seq<u64>,
    mask: u32,
    chunks: int,
    rot_live: bool,
)
    requires
        pointed(w, keys, chunks),
        0 <= chunks <= MAX_MASK_CHUNKS,
        forall|i: int, chunk: int|
            0 <= i < CORPUS_NODES && 0 <= chunk < chunks ==> #[trigger] chunk_at(w, keys, i, chunk),
    ensures
        chunk_rows_land(w, keys, mask, chunks, chunks as nat),
        rot_chunk_mask(w, keys, mask, chunks, rot_live).unrecoverable == w.unrecoverable,
{
    lemma_rot_masked_chunk_rows(w, keys, mask, chunks, chunks as nat);
    let v = rot_chunk_rows(w, keys, mask, chunks, chunks as nat);
    if rot_live {
        let floor = v.disks[keys[0]].first_slot;
        assert(pointed_disk(v, keys[0], floor, chunks) && pointed_disk(
            v,
            keys[1],
            floor,
            chunks,
        ));
        law_snapshot_rot_needs_last_custodian(v, keys[0], 0, keys[1]);
    }
}

/// The world with the chunks of `key`'s point rotted from `chunk` on, up to the
/// first that is not there or not clean.
pub open spec fn rot_point(w: WorldView, key: u64, node: u64, chunk: u32) -> WorldView
    decreases u32::MAX - chunk,
{
    let v = w.corrupt_snap_chunk(key, node, chunk);
    if w.chunk_corruptible(key, chunk) && chunk < u32::MAX {
        rot_point(v, key, node, (chunk + 1) as u32)
    } else {
        v
    }
}

/// The world with every custody `key` has of its truncated prefix rotted: the
/// live snapshot, and the point if it retains one.
pub open spec fn rot_custody(w: WorldView, key: u64, node: u64) -> WorldView {
    let v = w.corrupt_snapshot(key, node);
    if v.disks.contains_key(key) && v.disks[key].snap_point is Some {
        rot_point(v, key, node, 0)
    } else {
        v
    }
}

pub open spec fn rot_fold(w: WorldView, keys: Seq<u64>, n: nat) -> WorldView
    decreases n,
{
    if n == 0 {
        w
    } else {
        rot_custody(rot_fold(w, keys, (n - 1) as nat), keys[n - 1], (n - 1) as u64)
    }
}

/// The slots folded into the snapshots.
pub open spec fn folded() -> Set<u64> {
    Set::new(|slot: u64| slot < FOLDED_SLOTS)
}

impl StorageWorld {
    fn rot_retained_point(&mut self, key: u64, node: u64)
        ensures
            final(self)@ == rot_point(old(self)@, key, node, 0),
            final(self)@.restart_epochs == old(self)@.restart_epochs,
    {
        let mut chunk: u32 = 0;
        loop
            invariant_except_break
                rot_point(old(self)@, key, node, 0) == rot_point(self@, key, node, chunk),
                self@.restart_epochs == old(self)@.restart_epochs,
            ensures
                self@ == rot_point(old(self)@, key, node, 0),
                self@.restart_epochs == old(self)@.restart_epochs,
            decreases u32::MAX - chunk,
        {
            let landed = self.corpus_corrupt_snap_chunk(key, node, chunk);
            if !landed || chunk == u32::MAX {
                break;
            }
            chunk = chunk + 1;
        }
    }

    /// Rot every live snapshot and every chunk of every retained point, and
    /// restart every node. The folded prefix must be part of the ground truth.
    pub fn inject_fold(&mut self, keys: &Vec<u64>) -> (agrees: bool)
        requires
            cluster(keys@),
            restartable(old(self)@, keys@),
        ensures
            ({
                let rotted = rot_fold(old(self)@, keys@, CORPUS_NODES as nat);
                &&& final(self)@ == restarted(rotted, keys@, CORPUS_NODES as nat)
                &&& agrees == folded().subset_of(rotted.unrecoverable)
            }),
    {
        let mut i: usize = 0;
        while i < CORPUS_NODES
            invariant
                i <= CORPUS_NODES,
                keys@.len() == CORPUS_NODES,
                self@ == rot_fold(old(self)@, keys@, i as nat),
                self@.restart_epochs == old(self)@.restart_epochs,
            decreases CORPUS_NODES - i,
        {
            self.corpus_corrupt_snapshot(keys[i], i as u64);
            if let Some(probe) = self.corpus_disk_probe(keys[i]) {
                if probe.snap_point.is_some() {
                    self.rot_retained_point(keys[i], i as u64);
                }
            }
            i = i + 1;
        }
        let mut prefix: OrdSet<u64> = OrdSet::new();
        let mut slot: u64 = 0;
        while slot < FOLDED_SLOTS
            invariant
                slot <= FOLDED_SLOTS,
                forall|s: u64| #[trigger] prefix@.contains(s) <==> s < slot,
            decreases FOLDED_SLOTS - slot,
        {
            prefix.insert(slot);
            slot = slot + 1;
        }
        assert(prefix@ =~= folded());
        let truth = self.unrecoverable_slots();
        let agrees = within(&prefix, &truth);
        proof {
            assert forall|i: int| 0 <= i < keys@.len() implies self@.epoch(#[trigger] keys@[i])
                < u64::MAX by {
                assert(old(self)@.epoch(keys@[i]) < u64::MAX);
            }
        }
        self.restart_first(keys, CORPUS_NODES);
        agrees
    }
}

/// A cluster that truncated past the fold on every node, and is all there is.
pub open spec fn truncated(w: WorldView, keys: Seq<u64>) -> bool {
    &&& cluster(keys)
    &&& w.unbudgeted
    &&& forall|k: u64| #[trigger] w.disks.contains_key(k) ==> keys.contains(k)
    &&& forall|i: int| 0 <= i < CORPUS_NODES ==> truncated_disk(w, #[trigger] keys[i])
}

pub open spec fn truncated_disk(w: WorldView, key: u64) -> bool {
    &&& w.live_disk(key)
    &&& w.disks[key].first_slot >= FOLDED_SLOTS
    &&& forall|slot: u64| slot < FOLDED_SLOTS ==> !#[trigger] w.disks[key].holds_clean(slot)
    &&& w.disks[key].snap_point matches Some(point) ==> chunks_of(
        point.state.blob.len(),
        w.chunk_bytes,
    ) > 0
}

/// Nothing `key` holds can restore its truncated prefix.
pub open spec fn spent(w: WorldView, key: u64) -> bool {
    &&& w.disks[key].snapshot_health != RecordHealth::Clean
    &&& w.disks[key].snap_point is Some ==> !w.disks[key].chunk_clean(0)
}

proof fn lemma_first_holder(disks: Map<u64, DiskView>, at: u64, key: u64)
    requires
        holds_point(disks, key, at),
    ensures
        holds_point(disks, first_holder(disks, at), at),
    decreases key,
{
    if exists|other: u64| other < key && #[trigger] holds_point(disks, other, at) {
        let other = choose|other: u64| other < key && #[trigger] holds_point(disks, other, at);
        lemma_first_holder(disks, at, other);
    } else {
        assert(holds_point(disks, key, at) && forall|other: u64| #[trigger]
            holds_point(disks, other, at) ==> key <= other);
    }
}

/// A retained point is sliced into at least one chunk.
proof fn lemma_point_has_chunks(w: WorldView, keys: Seq<u64>, at: u64, key: u64)
    requires
        truncated(w, keys),
        holds_point(w.disks, key, at),
    ensures
        w.point_chunks(at) > 0,
{
    lemma_first_holder(w.disks, at, key);
    let first = first_holder(w.disks, at);
    assert(w.disks.contains_key(first));
    let f = keys.index_of(first);
    assert(truncated_disk(w, keys[f]));
}

/// No node serves the first chunk of a point.
proof fn lemma_spent_chunk(w: WorldView, keys: Seq<u64>, at: u64, key: u64)
    requires
        truncated(w, keys),
        forall|i: int| 0 <= i < CORPUS_NODES ==> spent(w, #[trigger] keys[i]),
    ensures
        !w.live_clean_chunk(key, at, 0),
{
    if w.live_clean_chunk(key, at, 0) {
        assert(w.disks.contains_key(key));
        let i = keys.index_of(key);
        assert(spent(w, keys[i]));
    }
}

proof fn lemma_spent_point(w: WorldView, keys: Seq<u64>, at: u64)
    requires
        truncated(w, keys),
        forall|i: int| 0 <= i < CORPUS_NODES ==> spent(w, #[trigger] keys[i]),
    ensures
        !w.assemblable(at),
{
    if w.assemblable(at) {
        let key = choose|key: u64| #[trigger] w.live_disk(key) && w.disks[key].has_point(at);
        lemma_point_has_chunks(w, keys, at, key);
        assert(w.chunk_served(at, 0));
        let holder = choose|key: u64| #[trigger] w.live_clean_chunk(key, at, 0);
        lemma_spent_chunk(w, keys, at, holder);
    }
}

proof fn lemma_spent_fold(w: WorldView, keys: Seq<u64>, slot: u64)
    requires
        truncated(w, keys),
        forall|i: int| 0 <= i < CORPUS_NODES ==> spent(w, #[trigger] keys[i]),
        slot < FOLDED_SLOTS,
    ensures
        w.slot_unrecoverable(slot),
{
    assert forall|key: u64| !#[trigger] w.serves(key, slot) by {
        if w.serves(key, slot) {
            assert(keys.contains(key));
            let i = keys.index_of(key);
            assert(truncated_disk(w, keys[i]));
            assert(spent(w, keys[i]));
        }
    }
    assert forall|at: u64| at >= slot implies !#[trigger] w.assemblable(at) by {
        lemma_spent_point(w, keys, at);
    }
}

/// `v` is `w` with nothing but `key`'s chunks, the ledger and the ground truth
/// touched.
spec fn chunks_only(w: WorldView, v: WorldView, key: u64) -> bool {
    &&& v.disks.dom() == w.disks.dom()
    &&& forall|k: u64| #[trigger] w.disks.contains_key(k) && k != key ==> v.disks[k] == w.disks[k]
    &&& w.disks.contains_key(key) ==> v.disks[key] == (DiskView {
        snap_chunk_health: v.disks[key].snap_chunk_health,
        ..w.disks[key]
    })
    &&& v.parked == w.parked
    &&& v.unbudgeted == w.unbudgeted
    &&& v.chunk_bytes == w.chunk_bytes
    &&& w.unrecoverable.subset_of(v.unrecoverable)
}

proof fn lemma_rot_one_chunk(w: WorldView, key: u64, node: u64, chunk: u32)
    ensures
        chunks_only(w, w.corrupt_snap_chunk(key, node, chunk), key),
        w.disks.contains_key(key) && !w.disks[key].chunk_clean(0) ==> !w.corrupt_snap_chunk(
            key,
            node,
            chunk,
        ).disks[key].chunk_clean(0),
        w.chunk_in_point(key, 0) && chunk == 0 ==> !w.corrupt_snap_chunk(
            key,
            node,
            chunk,
        ).disks[key].chunk_clean(0),
{
    let v = w.corrupt_snap_chunk(key, node, chunk);
    assert(v.disks.dom() =~= w.disks.dom());
}

proof fn lemma_rot_point(w: WorldView, key: u64, node: u64, chunk: u32)
    requires
        w.disks.contains_key(key),
    ensures
        chunks_only(w, rot_point(w, key, node, chunk), key),
        !w.disks[key].chunk_clean(0) || (chunk == 0 && w.chunk_in_point(key, 0)) ==> !rot_point(
            w,
            key,
            node,
            chunk,
        ).disks[key].chunk_clean(0),
        w.corrupt_snap_chunk(key, node, chunk).unrecoverable.subset_of(
            rot_point(w, key, node, chunk).unrecoverable,
        ),
    decreases u32::MAX - chunk,
{
    lemma_rot_one_chunk(w, key, node, chunk);
    let v = w.corrupt_snap_chunk(key, node, chunk);
    if w.chunk_corruptible(key, chunk) && chunk < u32::MAX {
        lemma_rot_point(v, key, node, (chunk + 1) as u32);
    }
}

proof fn lemma_chunks_only_truncated(w: WorldView, v: WorldView, keys: Seq<u64>, key: u64)
    requires
        truncated(w, keys),
        chunks_only(w, v, key),
    ensures
        truncated(v, keys),
{
    assert forall|i: int| 0 <= i < CORPUS_NODES implies truncated_disk(v, #[trigger] keys[i]) by {
        assert(truncated_disk(w, keys[i]));
        assert forall|slot: u64| slot < FOLDED_SLOTS implies !#[trigger] v.disks[keys[i]].holds_clean(
            slot,
        ) by {
            assert(!w.disks[keys[i]].holds_clean(slot));
        }
    }
}

proof fn lemma_rot_custody(w: WorldView, keys: Seq<u64>, node: int)
    requires
        truncated(w, keys),
        0 <= node < CORPUS_NODES,
    ensures
        ({
            let v = rot_custody(w, keys[node], node as u64);
            &&& truncated(v, keys)
            &&& spent(v, keys[node])
            &&& forall|i: int|
                0 <= i < CORPUS_NODES && i != node ==> v.disks[#[trigger] keys[i]]
                    == w.disks[keys[i]]
            &&& (forall|i: int|
                0 <= i < CORPUS_NODES && i != node ==> spent(w, #[trigger] keys[i]))
                ==> folded().subset_of(v.unrecoverable)
        }),
{
    let key = keys[node];
    assert(truncated_disk(w, key));
    let rotted = rotten(w.disks[key], StorageRecord::Snapshot);
    let bare = w.with_disk(key, rotted).note_corruption(
        crate::rot::injection(
            node as u64,
            StorageRecord::Snapshot,
            crate::world::CorruptionKind::BitFlip,
            false,
        ),
    );
    let u = w.corrupt_snapshot(key, node as u64);
    assert(u == bare.note_unrecoverable(below(w.disks[key].first_slot)));
    assert(u.disks == w.disks.insert(key, rotted));
    assert(truncated(bare, keys)) by {
        assert forall|i: int| 0 <= i < CORPUS_NODES implies truncated_disk(
            bare,
            #[trigger] keys[i],
        ) by {
            assert(truncated_disk(w, keys[i]));
            assert forall|slot: u64| slot < FOLDED_SLOTS implies !#[trigger] bare.disks[keys[i]].holds_clean(
            slot) by {
                assert(!w.disks[keys[i]].holds_clean(slot));
            }
        }
        assert forall|k: u64| #[trigger] bare.disks.contains_key(k) implies keys.contains(k) by {
            if k != key {
                assert(w.disks.contains_key(k));
            }
        }
    }
    assert(truncated(u, keys)) by {
        assert forall|i: int| 0 <= i < CORPUS_NODES implies truncated_disk(
            u,
            #[trigger] keys[i],
        ) by {
            assert(truncated_disk(bare, keys[i]));
            assert forall|slot: u64| slot < FOLDED_SLOTS implies !#[trigger] u.disks[keys[i]].holds_clean(
            slot) by {
                assert(!bare.disks[keys[i]].holds_clean(slot));
            }
        }
        assert forall|k: u64| #[trigger] u.disks.contains_key(k) implies keys.contains(k) by {
            assert(bare.disks.contains_key(k));
        }
    }
    let v = rot_custody(w, key, node as u64);
    let others_spent = forall|i: int|
        0 <= i < CORPUS_NODES && i != node ==> spent(w, #[trigger] keys[i]);
    if w.disks[key].snap_point is Some {
        lemma_rot_point(u, key, node as u64, 0);
        assert(u.chunk_in_point(key, 0));
        lemma_chunks_only_truncated(u, v, keys, key);
        if others_spent {
            let c = u.corrupt_snap_chunk(key, node as u64, 0);
            lemma_rot_one_chunk(u, key, node as u64, 0);
            lemma_chunks_only_truncated(u, c, keys, key);
            assert forall|i: int| 0 <= i < CORPUS_NODES implies spent(c, #[trigger] keys[i]) by {
                if i != node {
                    assert(spent(w, keys[i]));
                    assert(keys[i] != key);
                    assert(u.disks.contains_key(keys[i]));
                }
            }
            if u.chunk_corruptible(key, 0) {
                let listed = u.listed_chunks(key);
                let marked = DiskView {
                    snap_chunk_health: listed.snap_chunk_health.update(0, RecordHealth::Faulty),
                    ..listed
                };
                let pre = u.with_disk(key, marked).note_corruption(
                    crate::rot::injection(
                        node as u64,
                        StorageRecord::SnapChunk(listed.snap_point->0.at, 0),
                        crate::world::CorruptionKind::BitFlip,
                        false,
                    ),
                );
                assert(c == pre.note_unrecoverable(below(listed.first_slot)));
                assert(truncated(pre, keys)) by {
                    assert forall|i: int| 0 <= i < CORPUS_NODES implies truncated_disk(
                        pre,
                        #[trigger] keys[i],
                    ) by {
                        assert(truncated_disk(c, keys[i]));
                        assert forall|slot: u64| slot
                            < FOLDED_SLOTS implies !#[trigger] pre.disks[keys[i]].holds_clean(
                            slot,
                        ) by {
                            assert(!c.disks[keys[i]].holds_clean(slot));
                        }
                    }
                    assert forall|k: u64| #[trigger]
                        pre.disks.contains_key(k) implies keys.contains(k) by {
                        assert(c.disks.contains_key(k));
                    }
                }
                assert forall|i: int| 0 <= i < CORPUS_NODES implies spent(
                    pre,
                    #[trigger] keys[i],
                ) by {
                    assert(spent(c, keys[i]));
                }
                assert forall|slot: u64| #[trigger]
                    folded().contains(slot) implies c.unrecoverable.contains(slot) by {
                    lemma_spent_fold(pre, keys, slot);
                }
            } else {
                assert forall|i: int| 0 <= i < CORPUS_NODES implies spent(
                    bare,
                    #[trigger] keys[i],
                ) by {
                    if i != node {
                        assert(spent(w, keys[i]));
                        assert(keys[i] != key);
                    }
                }
                assert forall|slot: u64| #[trigger]
                    folded().contains(slot) implies c.unrecoverable.contains(slot) by {
                    lemma_spent_fold(bare, keys, slot);
                    assert(u.unrecoverable.contains(slot));
                }
            }
        }
    } else if others_spent {
        assert forall|i: int| 0 <= i < CORPUS_NODES implies spent(bare, #[trigger] keys[i]) by {
            if i != node {
                assert(spent(w, keys[i]));
                assert(keys[i] != key);
            }
        }
        assert forall|slot: u64| #[trigger]
            folded().contains(slot) implies v.unrecoverable.contains(slot) by {
            lemma_spent_fold(bare, keys, slot);
        }
    }
    assert forall|i: int| 0 <= i < CORPUS_NODES && i != node implies v.disks[#[trigger] keys[i]]
        == w.disks[keys[i]] by {
        assert(keys[i] != key);
        assert(truncated_disk(w, keys[i]));
        assert(u.disks.contains_key(keys[i]));
    }
}

/// Truncated past everyone: once every live snapshot and every retained point
/// of a cluster that truncated past a prefix is rotted, the whole of that
/// prefix is unrecoverable.
pub proof fn law_folded_prefix_is_lost(w: WorldView, keys: Seq<u64>)
    requires
        truncated(w, keys),
    ensures
        folded().subset_of(rot_fold(w, keys, CORPUS_NODES as nat).unrecoverable),
{
    reveal_with_fuel(rot_fold, 4);
    lemma_rot_custody(w, keys, 0);
    let a = rot_fold(w, keys, 1);
    lemma_rot_custody(a, keys, 1);
    let b = rot_fold(w, keys, 2);
    assert(b.disks[keys[0]] == a.disks[keys[0]]);
    assert(spent(b, keys[0]) && spent(b, keys[1]));
    lemma_rot_custody(b, keys, 2);
    assert forall|i: int| 0 <= i < CORPUS_NODES && i != 2 implies spent(b, #[trigger] keys[i]) by {
        assert(i == 0 || i == 1);
    }
}

/// A chunk mask rots exactly its own chunks of the retained point: the chunk of a
/// node is clean afterwards if and only if the mask leaves that cell out, whether
/// or not a live snapshot is rotted on top.
pub proof fn law_chunk_mask_rots_exactly_its_cells(
    w: WorldView,
    keys: Seq<u64>,
    mask: u32,
    chunks: int,
    rot_live: bool,
    node: int,
    chunk: int,
)
    requires
        pointed(w, keys, chunks),
        0 <= chunks <= MAX_MASK_CHUNKS,
        forall|i: int, c: int|
            0 <= i < CORPUS_NODES && 0 <= c < chunks ==> #[trigger] chunk_at(w, keys, i, c),
        0 <= node < CORPUS_NODES,
        0 <= chunk < chunks,
    ensures
        ({
            let after = rot_chunk_mask(w, keys, mask, chunks, rot_live);
            &&& chunk_at(after, keys, node, chunk) <==> !chunk_masked(mask, chunks, node, chunk)
            &&& rot_live ==> after.disks[keys[0]].snapshot_health != RecordHealth::Clean
        }),
{
    lemma_rot_masked_chunk_rows(w, keys, mask, chunks, chunks as nat);
    let v = rot_chunk_rows(w, keys, mask, chunks, chunks as nat);
    assert(chunk_at(v, keys, node, chunk) == !chunk_masked(mask, chunks, node, chunk));
    assert(pointed_disk(v, keys[0], v.disks[keys[0]].first_slot, chunks));
    let after = rot_chunk_mask(w, keys, mask, chunks, rot_live);
    assert(after.disks[keys[node]].snap_chunk_health == v.disks[keys[node]].snap_chunk_health);
}

} // verus!
