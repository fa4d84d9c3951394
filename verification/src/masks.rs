//! Corruption masks: which copies of which records a scripted case rots, and
//! what that must cost, derived from the mask alone.
//!
//! A mask is injected together with the restarts whose boot scans classify it,
//! in one step, so that no flush can heal a mark first. The derivation never
//! looks at the world; the world records its own ground truth, and the two must
//! agree.

use crate::disk::RecordHealth;
use crate::ledger::rotten;
use crate::ordered::{OrdSet, ascending, lemma_walk, lists, walked};
use crate::probe::covers;
use crate::records::StorageRecord;
use crate::world::{StorageWorld, WorldView, just};
use vstd::prelude::*;

verus! {

/// The size of a scripted cluster. The mask grid and the derivation assume it.
pub const CORPUS_NODES: usize = 3;

/// How many decided slots a slot mask covers.
pub const CORPUS_SLOTS: u64 = 3;

/// How many slot masks there are.
pub const CORPUS_MASK_SPACE: u16 = 512;

/// The slot decided by a bare quorum.
pub const BARE_SLOT: u64 = 2;

/// The slots folded into the snapshots before all of them are rotted.
pub const FOLDED_SLOTS: u64 = 8;

/// A scripted cluster's keys, in rank order.
pub open spec fn cluster(keys: Seq<u64>) -> bool {
    &&& keys.len() == CORPUS_NODES
    &&& keys.no_duplicates()
}

/// The mask rots `node`'s copy of `slot`.
pub open spec fn masked(mask: u16, node: int, slot: int) -> bool {
    mask & (1u16 << ((node * CORPUS_SLOTS + slot) as u16)) != 0
}

pub fn is_masked(mask: u16, node: u16, slot: u16) -> (hit: bool)
    requires
        node < CORPUS_NODES,
        slot < CORPUS_SLOTS,
    ensures
        hit == masked(mask, node as int, slot as int),
{
    mask & (1u16 << (node * 3 + slot)) != 0
}

/// Every copy of `slot` is rotted.
pub open spec fn lost(mask: u16, slot: u64) -> bool {
    slot < CORPUS_SLOTS && forall|node: int|
        0 <= node < CORPUS_NODES ==> #[trigger] masked(mask, node, slot as int)
}

/// The slots a mask leaves without a clean copy.
pub open spec fn lost_slots(mask: u16) -> Set<u64> {
    Set::new(|slot: u64| lost(mask, slot))
}

pub fn is_lost(mask: u16, slot: u64) -> (is_lost: bool)
    ensures
        is_lost == lost(mask, slot),
{
    if slot >= CORPUS_SLOTS {
        return false;
    }
    let slot = slot as u16;
    let all = is_masked(mask, 0, slot) && is_masked(mask, 1, slot) && is_masked(mask, 2, slot);
    proof {
        if all {
            assert forall|node: int| 0 <= node < CORPUS_NODES implies #[trigger] masked(
                mask,
                node,
                slot as int,
            ) by {
                assert(node == 0 || node == 1 || node == 2);
            }
        }
    }
    all
}

/// The slots a mask leaves without a clean copy, in a set.
pub fn derive_lost(mask: u16) -> (slots: OrdSet<u64>)
    ensures
        slots@ == lost_slots(mask),
{
    let mut slots: OrdSet<u64> = OrdSet::new();
    let mut slot: u64 = 0;
    while slot < CORPUS_SLOTS
        invariant
            slot <= CORPUS_SLOTS,
            forall|s: u64| #[trigger] slots@.contains(s) <==> s < slot && lost(mask, s),
        decreases CORPUS_SLOTS - slot,
    {
        if is_lost(mask, slot) {
            slots.insert(slot);
        }
        slot = slot + 1;
    }
    assert(slots@ =~= lost_slots(mask));
    slots
}

/// The prefix a cluster must hold at: the first lost slot, if there is one.
pub open spec fn held_prefix(mask: u16) -> Option<u64> {
    if lost(mask, 0) {
        Some(0)
    } else if lost(mask, 1) {
        Some(1)
    } else if lost(mask, 2) {
        Some(2)
    } else {
        None
    }
}

pub fn hold_at(mask: u16) -> (at: Option<u64>)
    ensures
        at == held_prefix(mask),
{
    if is_lost(mask, 0) {
        Some(0)
    } else if is_lost(mask, 1) {
        Some(1)
    } else if is_lost(mask, 2) {
        Some(2)
    } else {
        None
    }
}

/// A cluster holds at the first slot that is lost, and runs on exactly when
/// none is.
pub proof fn law_cluster_holds_at_first_loss(mask: u16)
    ensures
        match held_prefix(mask) {
            Some(at) => lost_slots(mask).contains(at) && forall|slot: u64| #[trigger]
                lost_slots(mask).contains(slot) ==> at <= slot,
            None => lost_slots(mask) == Set::<u64>::empty(),
        },
{
    if held_prefix(mask) is None {
        assert(lost_slots(mask) =~= Set::<u64>::empty());
    }
}

/// Whether two sets of slots are the same.
pub fn same_slots(a: &OrdSet<u64>, b: &OrdSet<u64>) -> (same: bool)
    ensures
        same == (a@ == b@),
{
    let same = within(a, b) && within(b, a);
    proof {
        if same {
            assert(a@ =~= b@);
        }
    }
    same
}

/// Whether every member of `a` is one of `b`.
pub fn within(a: &OrdSet<u64>, b: &OrdSet<u64>) -> (within: bool)
    ensures
        within == a@.subset_of(b@),
{
    let n = a.len();
    let mut i: usize = 0;
    proof {
        lemma_walk(a@, 0);
    }
    while i < n
        invariant
            i <= n,
            n == a@.len(),
            n == ascending(a@).len(),
            lists(ascending(a@), a@),
            walked(a@, i as int).subset_of(b@),
        decreases n - i,
    {
        proof {
            lemma_walk(a@, i as int);
        }
        if !b.contains(a.at(i)) {
            return false;
        }
        i = i + 1;
    }
    proof {
        lemma_walk(a@, i as int);
    }
    true
}

/// The world with the first `n` nodes' snapshots rotted.
pub open spec fn rot_snapshots(w: WorldView, keys: Seq<u64>, n: nat) -> WorldView
    decreases n,
{
    if n == 0 {
        w
    } else {
        rot_snapshots(w, keys, (n - 1) as nat).corrupt_snapshot(keys[n - 1], (n - 1) as u64)
    }
}

/// The world with the masked copies of `slot` on the first `n` nodes rotted.
pub open spec fn rot_row(w: WorldView, keys: Seq<u64>, mask: u16, slot: u64, n: nat) -> WorldView
    decreases n,
{
    if n == 0 {
        w
    } else {
        let before = rot_row(w, keys, mask, slot, (n - 1) as nat);
        if masked(mask, n - 1, slot as int) {
            before.corrupt_entry(keys[n - 1], (n - 1) as u64, slot)
        } else {
            before
        }
    }
}

/// Each of those injections found a clean record.
pub open spec fn row_lands(w: WorldView, keys: Seq<u64>, mask: u16, slot: u64, n: nat) -> bool
    decreases n,
{
    n > 0 ==> {
        &&& row_lands(w, keys, mask, slot, (n - 1) as nat)
        &&& masked(mask, n - 1, slot as int) ==> rot_row(
            w,
            keys,
            mask,
            slot,
            (n - 1) as nat,
        ).entry_corruptible(keys[n - 1], slot)
    }
}

/// The world with the masked copies of the first `s` slots rotted.
pub open spec fn rot_rows(w: WorldView, keys: Seq<u64>, mask: u16, s: nat) -> WorldView
    decreases s,
{
    if s == 0 {
        w
    } else {
        rot_row(
            rot_rows(w, keys, mask, (s - 1) as nat),
            keys,
            mask,
            (s - 1) as u64,
            CORPUS_NODES as nat,
        )
    }
}

pub open spec fn rows_land(w: WorldView, keys: Seq<u64>, mask: u16, s: nat) -> bool
    decreases s,
{
    s > 0 ==> {
        &&& rows_land(w, keys, mask, (s - 1) as nat)
        &&& row_lands(
            rot_rows(w, keys, mask, (s - 1) as nat),
            keys,
            mask,
            (s - 1) as u64,
            CORPUS_NODES as nat,
        )
    }
}

/// The world with the first `n` nodes restarted.
pub open spec fn restarted(w: WorldView, keys: Seq<u64>, n: nat) -> WorldView
    decreases n,
{
    if n == 0 {
        w
    } else {
        let before = restarted(w, keys, (n - 1) as nat);
        WorldView {
            restart_epochs: before.restart_epochs.insert(
                keys[n - 1],
                (before.epoch(keys[n - 1]) + 1) as u64,
            ),
            ..before
        }
    }
}

/// The world a slot mask leaves, before the restarts: every snapshot rotted
/// first, so that the decided log is the only custody left.
pub open spec fn rot_mask(w: WorldView, keys: Seq<u64>, mask: u16) -> WorldView {
    rot_rows(
        rot_snapshots(w, keys, CORPUS_NODES as nat),
        keys,
        mask,
        CORPUS_SLOTS as nat,
    )
}

/// What an injection amounted to.
#[derive(Clone, Copy, Debug, PartialEq, Eq, Structural)]
pub struct Injected {
    /// Every injection landed on a clean record.
    pub landed: bool,
    /// The derivation agrees with the world's own ground truth.
    pub agrees: bool,
}

/// Every node's epoch can be raised once more.
pub open spec fn restartable(w: WorldView, keys: Seq<u64>) -> bool {
    forall|i: int| 0 <= i < keys.len() ==> w.epoch(#[trigger] keys[i]) < u64::MAX
}

proof fn lemma_restarted_epochs(w: WorldView, keys: Seq<u64>, n: nat)
    requires
        cluster(keys),
        n <= keys.len(),
    ensures
        forall|i: int|
            n <= i < keys.len() ==> restarted(w, keys, n).epoch(#[trigger] keys[i]) == w.epoch(
                keys[i],
            ),
    decreases n,
{
    if n > 0 {
        lemma_restarted_epochs(w, keys, (n - 1) as nat);
        assert forall|i: int| n <= i < keys.len() implies restarted(w, keys, n).epoch(
            #[trigger] keys[i],
        ) == w.epoch(keys[i]) by {
            assert(keys[i] != keys[n - 1]);
        }
    }
}

proof fn lemma_snapshots_keep_epochs(w: WorldView, keys: Seq<u64>, n: nat)
    ensures
        rot_snapshots(w, keys, n).restart_epochs == w.restart_epochs,
    decreases n,
{
    if n > 0 {
        lemma_snapshots_keep_epochs(w, keys, (n - 1) as nat);
    }
}

proof fn lemma_row_keeps_epochs(w: WorldView, keys: Seq<u64>, mask: u16, slot: u64, n: nat)
    ensures
        rot_row(w, keys, mask, slot, n).restart_epochs == w.restart_epochs,
    decreases n,
{
    if n > 0 {
        lemma_row_keeps_epochs(w, keys, mask, slot, (n - 1) as nat);
    }
}

proof fn lemma_rows_keep_epochs(w: WorldView, keys: Seq<u64>, mask: u16, s: nat)
    ensures
        rot_rows(w, keys, mask, s).restart_epochs == w.restart_epochs,
    decreases s,
{
    if s > 0 {
        lemma_rows_keep_epochs(w, keys, mask, (s - 1) as nat);
        lemma_row_keeps_epochs(
            rot_rows(w, keys, mask, (s - 1) as nat),
            keys,
            mask,
            (s - 1) as u64,
            CORPUS_NODES as nat,
        );
    }
}

impl StorageWorld {
    /// Restart the first `n` nodes.
    pub(crate) fn restart_first(&mut self, keys: &Vec<u64>, n: usize)
        requires
            cluster(keys@),
            n <= keys@.len(),
            restartable(old(self)@, keys@),
        ensures
            final(self)@ == restarted(old(self)@, keys@, n as nat),
    {
        let mut i: usize = 0;
        while i < n
            invariant
                i <= n <= keys@.len(),
                cluster(keys@),
                restartable(old(self)@, keys@),
                self@ == restarted(old(self)@, keys@, i as nat),
            decreases n - i,
        {
            proof {
                lemma_restarted_epochs(old(self)@, keys@, i as nat);
                assert(old(self)@.epoch(keys@[i as int]) < u64::MAX);
            }
            self.corpus_restart_node(keys[i]);
            i = i + 1;
        }
    }

    fn rot_all_snapshots(&mut self, keys: &Vec<u64>)
        requires
            cluster(keys@),
        ensures
            final(self)@ == rot_snapshots(old(self)@, keys@, CORPUS_NODES as nat),
    {
        let mut i: usize = 0;
        while i < CORPUS_NODES
            invariant
                i <= CORPUS_NODES,
                keys@.len() == CORPUS_NODES,
                self@ == rot_snapshots(old(self)@, keys@, i as nat),
            decreases CORPUS_NODES - i,
        {
            self.corpus_corrupt_snapshot(keys[i], i as u64);
            i = i + 1;
        }
    }

    fn rot_masked_row(&mut self, keys: &Vec<u64>, mask: u16, slot: u64) -> (landed: bool)
        requires
            cluster(keys@),
            slot < CORPUS_SLOTS,
        ensures
            final(self)@ == rot_row(old(self)@, keys@, mask, slot, CORPUS_NODES as nat),
            landed == row_lands(old(self)@, keys@, mask, slot, CORPUS_NODES as nat),
    {
        let mut landed = true;
        let mut i: usize = 0;
        while i < CORPUS_NODES
            invariant
                i <= CORPUS_NODES,
                keys@.len() == CORPUS_NODES,
                slot < CORPUS_SLOTS,
                self@ == rot_row(old(self)@, keys@, mask, slot, i as nat),
                landed == row_lands(old(self)@, keys@, mask, slot, i as nat),
            decreases CORPUS_NODES - i,
        {
            if is_masked(mask, i as u16, slot as u16) {
                let lands = self.corpus_corrupt_entry(keys[i], i as u64, slot);
                landed = landed && lands;
            }
            i = i + 1;
        }
        landed
    }

    /// Rot every snapshot and the masked copies, and restart every node.
    pub fn inject_mask(&mut self, keys: &Vec<u64>, mask: u16) -> (injected: Injected)
        requires
            cluster(keys@),
            restartable(old(self)@, keys@),
        ensures
            final(self)@ == restarted(
                rot_mask(old(self)@, keys@, mask),
                keys@,
                CORPUS_NODES as nat,
            ),
            injected.landed == rows_land(
                rot_snapshots(old(self)@, keys@, CORPUS_NODES as nat),
                keys@,
                mask,
                CORPUS_SLOTS as nat,
            ),
            injected.agrees == (rot_mask(old(self)@, keys@, mask).unrecoverable == lost_slots(
                mask,
            )),
    {
        self.rot_all_snapshots(keys);
        let ghost w = self@;
        let mut landed = true;
        let mut slot: u64 = 0;
        while slot < CORPUS_SLOTS
            invariant
                slot <= CORPUS_SLOTS,
                cluster(keys@),
                self@ == rot_rows(w, keys@, mask, slot as nat),
                landed == rows_land(w, keys@, mask, slot as nat),
            decreases CORPUS_SLOTS - slot,
        {
            let lands = self.rot_masked_row(keys, mask, slot);
            landed = landed && lands;
            slot = slot + 1;
        }
        let derived = derive_lost(mask);
        let truth = self.unrecoverable_slots();
        let agrees = same_slots(&truth, &derived);
        proof {
            lemma_snapshots_keep_epochs(old(self)@, keys@, CORPUS_NODES as nat);
            lemma_rows_keep_epochs(w, keys@, mask, CORPUS_SLOTS as nat);
            assert forall|i: int| 0 <= i < keys@.len() implies self@.epoch(#[trigger] keys@[i])
                < u64::MAX by {
                assert(old(self)@.epoch(keys@[i]) < u64::MAX);
            }
        }
        self.restart_first(keys, CORPUS_NODES);
        Injected { landed, agrees }
    }
}

/// A cluster whose log is its only custody: three live disks and no other, the
/// whole log retained, no snapshot point, and every injection recorded.
pub open spec fn log_only(w: WorldView, keys: Seq<u64>) -> bool {
    &&& cluster(keys)
    &&& w.unbudgeted
    &&& forall|k: u64| #[trigger] w.disks.contains_key(k) ==> keys.contains(k)
    &&& forall|i: int| 0 <= i < CORPUS_NODES ==> log_only_disk(w, #[trigger] keys[i])
}

pub open spec fn log_only_disk(w: WorldView, key: u64) -> bool {
    &&& w.live_disk(key)
    &&& w.disks[key].snap_point is None
    &&& w.disks[key].first_slot == 0
}

/// Node `i` holds `slot` clean.
pub open spec fn clean_at(w: WorldView, keys: Seq<u64>, i: int, slot: u64) -> bool {
    w.disks[keys[i]].holds_clean(slot)
}

/// The primed cluster of a slot mask: the prefix is replicated clean on every
/// node, and nothing is lost yet.
pub open spec fn primed(w: WorldView, keys: Seq<u64>) -> bool {
    &&& log_only(w, keys)
    &&& w.unrecoverable == Set::<u64>::empty()
    &&& forall|i: int, slot: u64|
        0 <= i < CORPUS_NODES && slot < CORPUS_SLOTS ==> #[trigger] clean_at(w, keys, i, slot)
}

/// A slot of a log-only cluster is lost exactly when no node holds it clean.
proof fn lemma_log_only_slot(w: WorldView, keys: Seq<u64>, slot: u64)
    requires
        log_only(w, keys),
    ensures
        w.slot_unrecoverable(slot) == !(clean_at(w, keys, 0, slot) || clean_at(w, keys, 1, slot)
            || clean_at(w, keys, 2, slot)),
{
    assert(log_only_disk(w, keys[0]) && log_only_disk(w, keys[1]) && log_only_disk(w, keys[2]));
    if clean_at(w, keys, 0, slot) {
        assert(w.serves(keys[0], slot));
    }
    if clean_at(w, keys, 1, slot) {
        assert(w.serves(keys[1], slot));
    }
    if clean_at(w, keys, 2, slot) {
        assert(w.serves(keys[2], slot));
    }
    if !(clean_at(w, keys, 0, slot) || clean_at(w, keys, 1, slot) || clean_at(w, keys, 2, slot)) {
        assert forall|key: u64| !#[trigger] w.serves(key, slot) by {
            if w.serves(key, slot) {
                let i = choose|i: int| 0 <= i < keys.len() && keys[i] == key;
                assert(i == 0 || i == 1 || i == 2);
            }
        }
        assert forall|at: u64| at >= slot implies !#[trigger] w.assemblable(at) by {
            if w.assemblable(at) {
                let key = choose|key: u64| #[trigger] w.live_disk(key) && w.disks[key].has_point(at);
                let i = choose|i: int| 0 <= i < keys.len() && keys[i] == key;
                assert(i == 0 || i == 1 || i == 2);
            }
        }
    }
}

/// Rotting one record of a log-only cluster.
proof fn lemma_rot_cell(w: WorldView, keys: Seq<u64>, node: int, slot: u64)
    requires
        log_only(w, keys),
        0 <= node < CORPUS_NODES,
        clean_at(w, keys, node, slot),
    ensures
        w.entry_corruptible(keys[node], slot),
        ({
            let v = w.corrupt_entry(keys[node], node as u64, slot);
            &&& log_only(v, keys)
            &&& forall|i: int, t: u64|
                0 <= i < CORPUS_NODES ==> #[trigger] clean_at(v, keys, i, t) == (clean_at(
                    w,
                    keys,
                    i,
                    t,
                ) && !(i == node && t == slot))
            &&& v.unrecoverable == if clean_at(v, keys, 0, slot) || clean_at(v, keys, 1, slot)
                || clean_at(v, keys, 2, slot) {
                w.unrecoverable
            } else {
                w.unrecoverable.insert(slot)
            }
        }),
{
    assert(log_only_disk(w, keys[node]));
    let v = w.corrupt_entry(keys[node], node as u64, slot);
    let rotted = rotten(w.disks[keys[node]], StorageRecord::Accepted(slot));
    assert(v.disks == w.disks.insert(keys[node], rotted));
    assert forall|i: int| 0 <= i < CORPUS_NODES implies log_only_disk(v, #[trigger] keys[i]) by {
        assert(log_only_disk(w, keys[i]));
    }
    assert forall|k: u64| #[trigger] v.disks.contains_key(k) implies keys.contains(k) by {
        if k != keys[node] {
            assert(w.disks.contains_key(k));
        }
    }
    assert forall|i: int, t: u64| 0 <= i < CORPUS_NODES implies #[trigger] clean_at(v, keys, i, t)
        == (clean_at(w, keys, i, t) && !(i == node && t == slot)) by {
        if i != node {
            assert(keys[i] != keys[node]);
        }
    }
    let before = w.with_disk(keys[node], rotted).mark(keys[node], set![slot]).note_corruption(
        crate::rot::injection(
            node as u64,
            StorageRecord::Accepted(slot),
            crate::world::CorruptionKind::BitFlip,
            false,
        ),
    );
    assert(v == before.note_unrecoverable(just(slot)));
    assert(log_only(before, keys)) by {
        assert forall|i: int| 0 <= i < CORPUS_NODES implies log_only_disk(
            before,
            #[trigger] keys[i],
        ) by {
            assert(log_only_disk(v, keys[i]));
        }
    }
    lemma_log_only_slot(before, keys, slot);
    assert(v.unrecoverable =~= if before.slot_unrecoverable(slot) {
        w.unrecoverable.insert(slot)
    } else {
        w.unrecoverable
    });
    assert(clean_at(before, keys, 0, slot) == clean_at(v, keys, 0, slot));
    assert(clean_at(before, keys, 1, slot) == clean_at(v, keys, 1, slot));
    assert(clean_at(before, keys, 2, slot) == clean_at(v, keys, 2, slot));
}

/// Rotting one snapshot of a log-only cluster costs no slot.
proof fn lemma_rot_idle_snapshot(w: WorldView, keys: Seq<u64>, node: int)
    requires
        log_only(w, keys),
        0 <= node < CORPUS_NODES,
    ensures
        ({
            let v = w.corrupt_snapshot(keys[node], node as u64);
            &&& log_only(v, keys)
            &&& v.unrecoverable == w.unrecoverable
            &&& forall|i: int, t: u64|
                0 <= i < CORPUS_NODES ==> #[trigger] clean_at(v, keys, i, t) == clean_at(
                    w,
                    keys,
                    i,
                    t,
                )
        }),
{
    assert(log_only_disk(w, keys[node]));
    let v = w.corrupt_snapshot(keys[node], node as u64);
    let rotted = rotten(w.disks[keys[node]], StorageRecord::Snapshot);
    assert(v.disks == w.disks.insert(keys[node], rotted));
    assert(v.unrecoverable =~= w.unrecoverable);
    assert forall|i: int| 0 <= i < CORPUS_NODES implies log_only_disk(v, #[trigger] keys[i]) by {
        assert(log_only_disk(w, keys[i]));
    }
    assert forall|k: u64| #[trigger] v.disks.contains_key(k) implies keys.contains(k) by {
        if k != keys[node] {
            assert(w.disks.contains_key(k));
        }
    }
    assert forall|i: int, t: u64| 0 <= i < CORPUS_NODES implies #[trigger] clean_at(v, keys, i, t)
        == clean_at(w, keys, i, t) by {
        if i != node {
            assert(keys[i] != keys[node]);
        }
    }
}

proof fn lemma_rot_idle_snapshots(w: WorldView, keys: Seq<u64>, n: nat)
    requires
        log_only(w, keys),
        n <= CORPUS_NODES,
    ensures
        log_only(rot_snapshots(w, keys, n), keys),
        rot_snapshots(w, keys, n).unrecoverable == w.unrecoverable,
        forall|i: int, t: u64|
            0 <= i < CORPUS_NODES ==> #[trigger] clean_at(rot_snapshots(w, keys, n), keys, i, t)
                == clean_at(w, keys, i, t),
    decreases n,
{
    if n > 0 {
        lemma_rot_idle_snapshots(w, keys, (n - 1) as nat);
        lemma_rot_idle_snapshot(rot_snapshots(w, keys, (n - 1) as nat), keys, n - 1);
    }
}

proof fn lemma_rot_masked_row(w: WorldView, keys: Seq<u64>, mask: u16, slot: u64, n: nat)
    requires
        log_only(w, keys),
        slot < CORPUS_SLOTS,
        n <= CORPUS_NODES,
        forall|i: int| 0 <= i < CORPUS_NODES ==> #[trigger] clean_at(w, keys, i, slot),
    ensures
        row_lands(w, keys, mask, slot, n),
        ({
            let v = rot_row(w, keys, mask, slot, n);
            &&& log_only(v, keys)
            &&& forall|i: int, t: u64|
                0 <= i < CORPUS_NODES ==> #[trigger] clean_at(v, keys, i, t) == (clean_at(
                    w,
                    keys,
                    i,
                    t,
                ) && !(t == slot && i < n && masked(mask, i, slot as int)))
            &&& v.unrecoverable == if n == CORPUS_NODES && lost(mask, slot) {
                w.unrecoverable.insert(slot)
            } else {
                w.unrecoverable
            }
        }),
    decreases n,
{
    if n > 0 {
        let m = (n - 1) as nat;
        lemma_rot_masked_row(w, keys, mask, slot, m);
        let u = rot_row(w, keys, mask, slot, m);
        let v = rot_row(w, keys, mask, slot, n);
        assert(clean_at(w, keys, n - 1, slot));
        assert(clean_at(u, keys, n - 1, slot));
        if masked(mask, n - 1, slot as int) {
            lemma_rot_cell(u, keys, n - 1, slot);
        }
        assert(clean_at(w, keys, 0, slot) && clean_at(w, keys, 1, slot) && clean_at(
            w,
            keys,
            2,
            slot,
        ));
        assert(lost(mask, slot) == (masked(mask, 0, slot as int) && masked(mask, 1, slot as int)
            && masked(mask, 2, slot as int))) by {
            if masked(mask, 0, slot as int) && masked(mask, 1, slot as int) && masked(
                mask,
                2,
                slot as int,
            ) {
                assert forall|node: int| 0 <= node < CORPUS_NODES implies #[trigger] masked(
                    mask,
                    node,
                    slot as int,
                ) by {
                    assert(node == 0 || node == 1 || node == 2);
                }
            }
        }
        assert(clean_at(v, keys, 0, slot) == !(0 < n && masked(mask, 0, slot as int)));
        assert(clean_at(v, keys, 1, slot) == !(1 < n && masked(mask, 1, slot as int)));
        assert(clean_at(v, keys, 2, slot) == !(2 < n && masked(mask, 2, slot as int)));
    }
}

proof fn lemma_rot_masked_rows(w: WorldView, keys: Seq<u64>, mask: u16, s: nat)
    requires
        log_only(w, keys),
        s <= CORPUS_SLOTS,
        forall|i: int, slot: u64|
            0 <= i < CORPUS_NODES && slot < CORPUS_SLOTS ==> #[trigger] clean_at(w, keys, i, slot),
    ensures
        rows_land(w, keys, mask, s),
        log_only(rot_rows(w, keys, mask, s), keys),
        forall|i: int, slot: u64|
            0 <= i < CORPUS_NODES && slot < CORPUS_SLOTS ==> #[trigger] clean_at(
                rot_rows(w, keys, mask, s),
                keys,
                i,
                slot,
            ) == !(slot < s && masked(mask, i, slot as int)),
        forall|slot: u64| #[trigger]
            rot_rows(w, keys, mask, s).unrecoverable.contains(slot) <==> w.unrecoverable.contains(
                slot,
            ) || (slot < s && lost(mask, slot)),
    decreases s,
{
    if s > 0 {
        let m = (s - 1) as nat;
        lemma_rot_masked_rows(w, keys, mask, m);
        lemma_rot_masked_row(
            rot_rows(w, keys, mask, m),
            keys,
            mask,
            m as u64,
            CORPUS_NODES as nat,
        );
    }
}

/// The derivation and the ground truth agree: on a primed cluster every
/// injection of a slot mask lands on a clean record, and the slots the world
/// finds unrecoverable are exactly those the mask rots on every node.
pub proof fn law_mask_derivation_matches_ground_truth(w: WorldView, keys: Seq<u64>, mask: u16)
    requires
        primed(w, keys),
    ensures
        rows_land(
            rot_snapshots(w, keys, CORPUS_NODES as nat),
            keys,
            mask,
            CORPUS_SLOTS as nat,
        ),
        rot_mask(w, keys, mask).unrecoverable == lost_slots(mask),
{
    lemma_rot_idle_snapshots(w, keys, CORPUS_NODES as nat);
    let u = rot_snapshots(w, keys, CORPUS_NODES as nat);
    assert forall|i: int, slot: u64|
        0 <= i < CORPUS_NODES && slot < CORPUS_SLOTS implies #[trigger] clean_at(
        u,
        keys,
        i,
        slot,
    ) by {
        assert(clean_at(w, keys, i, slot));
    }
    lemma_rot_masked_rows(u, keys, mask, CORPUS_SLOTS as nat);
    assert(rot_mask(w, keys, mask).unrecoverable =~= lost_slots(mask));
}

/// The world with the bare quorum's copies of one slot rotted, and their
/// snapshots.
pub open spec fn rot_bare_quorum(w: WorldView, keys: Seq<u64>) -> WorldView {
    rot_holder(rot_holder(w, keys, 0), keys, 1)
}

pub open spec fn rot_holder(w: WorldView, keys: Seq<u64>, node: int) -> WorldView {
    w.corrupt_snapshot(keys[node], node as u64).corrupt_entry(keys[node], node as u64, BARE_SLOT)
}

/// Both of those injections found a clean record.
pub open spec fn bare_quorum_lands(w: WorldView, keys: Seq<u64>) -> bool {
    &&& w.corrupt_snapshot(keys[0], 0).entry_corruptible(keys[0], BARE_SLOT)
    &&& rot_holder(w, keys, 0).corrupt_snapshot(keys[1], 1).entry_corruptible(keys[1], BARE_SLOT)
}

/// The world after the bare-quorum injection: both holders rotted and restarted,
/// and the node that was away released.
pub open spec fn bare_quorum_injected(w: WorldView, keys: Seq<u64>) -> WorldView {
    let again = restarted(rot_bare_quorum(w, keys), keys, 2);
    WorldView { held: again.held.remove(keys[2]), ..again }
}

impl StorageWorld {
    /// Rot both holders' copies of the bare slot and their snapshots, restart
    /// them, and release the node that was away.
    pub fn inject_bare_quorum(&mut self, keys: &Vec<u64>) -> (injected: Injected)
        requires
            cluster(keys@),
            restartable(old(self)@, keys@),
        ensures
            final(self)@ == bare_quorum_injected(old(self)@, keys@),
            injected.landed == bare_quorum_lands(old(self)@, keys@),
            injected.agrees == (rot_bare_quorum(old(self)@, keys@).unrecoverable
                == set![BARE_SLOT]),
    {
        self.corpus_corrupt_snapshot(keys[0], 0);
        let first = self.corpus_corrupt_entry(keys[0], 0, BARE_SLOT);
        self.corpus_corrupt_snapshot(keys[1], 1);
        let second = self.corpus_corrupt_entry(keys[1], 1, BARE_SLOT);
        let mut derived: OrdSet<u64> = OrdSet::new();
        derived.insert(BARE_SLOT);
        assert(derived@ =~= set![BARE_SLOT]);
        let truth = self.unrecoverable_slots();
        let agrees = same_slots(&truth, &derived);
        proof {
            assert(self@.restart_epochs == old(self)@.restart_epochs);
            assert forall|i: int| 0 <= i < keys@.len() implies self@.epoch(#[trigger] keys@[i])
                < u64::MAX by {
                assert(old(self)@.epoch(keys@[i]) < u64::MAX);
            }
        }
        self.restart_first(keys, 2);
        self.corpus_release_node(keys[2]);
        Injected { landed: first && second, agrees }
    }
}

/// The last copy gone: once both holders of a slot decided by a bare quorum
/// rot, that slot and no other is unrecoverable. The third node never accepted
/// it.
pub proof fn law_bare_quorum_loss_is_exact(w: WorldView, keys: Seq<u64>)
    requires
        log_only(w, keys),
        w.unrecoverable == Set::<u64>::empty(),
        clean_at(w, keys, 0, BARE_SLOT),
        clean_at(w, keys, 1, BARE_SLOT),
        !clean_at(w, keys, 2, BARE_SLOT),
    ensures
        bare_quorum_lands(w, keys),
        rot_bare_quorum(w, keys).unrecoverable == set![BARE_SLOT],
{
    lemma_rot_idle_snapshot(w, keys, 0);
    let a = w.corrupt_snapshot(keys[0], 0);
    assert(clean_at(a, keys, 0, BARE_SLOT) && clean_at(a, keys, 1, BARE_SLOT));
    lemma_rot_cell(a, keys, 0, BARE_SLOT);
    let b = rot_holder(w, keys, 0);
    assert(clean_at(b, keys, 1, BARE_SLOT));
    lemma_rot_idle_snapshot(b, keys, 1);
    let c = b.corrupt_snapshot(keys[1], 1);
    assert(clean_at(c, keys, 1, BARE_SLOT));
    lemma_rot_cell(c, keys, 1, BARE_SLOT);
    let d = rot_bare_quorum(w, keys);
    assert(!clean_at(d, keys, 0, BARE_SLOT) && !clean_at(d, keys, 1, BARE_SLOT) && !clean_at(
        d,
        keys,
        2,
        BARE_SLOT,
    )) by {
        assert(!clean_at(a, keys, 2, BARE_SLOT));
        assert(!clean_at(b, keys, 2, BARE_SLOT));
        assert(!clean_at(c, keys, 2, BARE_SLOT));
        assert(!clean_at(b, keys, 0, BARE_SLOT));
        assert(!clean_at(c, keys, 0, BARE_SLOT));
    }
    assert(d.unrecoverable =~= set![BARE_SLOT]);
}

/// A slot mask rots exactly its own copies of a primed cluster: the copy of a slot
/// on a node is clean afterwards if and only if the mask leaves that cell out.
pub proof fn law_mask_rots_exactly_its_cells(
    w: WorldView,
    keys: Seq<u64>,
    mask: u16,
    node: int,
    slot: u64,
)
    requires
        primed(w, keys),
        0 <= node < CORPUS_NODES,
        slot < CORPUS_SLOTS,
    ensures
        clean_at(rot_mask(w, keys, mask), keys, node, slot) <==> !masked(mask, node, slot as int),
{
    lemma_rot_idle_snapshots(w, keys, CORPUS_NODES as nat);
    let u = rot_snapshots(w, keys, CORPUS_NODES as nat);
    assert forall|i: int, s: u64|
        0 <= i < CORPUS_NODES && s < CORPUS_SLOTS implies #[trigger] clean_at(u, keys, i, s) by {
        assert(clean_at(w, keys, i, s));
    }
    lemma_rot_masked_rows(u, keys, mask, CORPUS_SLOTS as nat);
    assert(clean_at(rot_rows(u, keys, mask, CORPUS_SLOTS as nat), keys, node, slot) == !masked(
        mask,
        node,
        slot as int,
    ));
}

/// Each node's copy of each slot is a bit of its own: a mask of one bit hits one
/// cell, two masks together hit the cells of either, and no mask hits none.
pub proof fn law_cells_are_bits(a: u16, b: u16, node: int, slot: int, other: int, another: int)
    requires
        0 <= node < CORPUS_NODES,
        0 <= slot < CORPUS_SLOTS,
        0 <= other < CORPUS_NODES,
        0 <= another < CORPUS_SLOTS,
    ensures
        !masked(0, node, slot),
        masked(a | b, node, slot) <==> masked(a, node, slot) || masked(b, node, slot),
        masked(1u16 << ((node * CORPUS_SLOTS + slot) as u16), other, another) <==> node == other
            && slot == another,
{
    let x = (node * CORPUS_SLOTS + slot) as u16;
    let y = (other * CORPUS_SLOTS + another) as u16;
    assert(0u16 & (1u16 << x) == 0) by (bit_vector);
    assert((a | b) & (1u16 << x) != 0 <==> a & (1u16 << x) != 0 || b & (1u16 << x) != 0)
        by (bit_vector);
    assert((1u16 << x) & (1u16 << y) != 0 <==> x == y) by (bit_vector)
        requires
            x < 16,
            y < 16,
    ;
}

/// Restarting the first nodes of a cluster raises each one's epoch by one, and no
/// other's; no disk and no hold changes by it.
pub proof fn law_restarts_reach_each_node_once(w: WorldView, keys: Seq<u64>, n: nat, key: u64)
    requires
        keys.no_duplicates(),
        n <= keys.len(),
        restartable(w, keys),
    ensures
        ({
            let after = restarted(w, keys, n);
            let named = exists|i: int| 0 <= i < n && #[trigger] keys[i] == key;
            &&& named ==> after.epoch(key) == w.epoch(key) + 1
            &&& !named ==> after.epoch(key) == w.epoch(key)
            &&& after.disks == w.disks
            &&& after.held == w.held
            &&& after.corruptions == w.corruptions
            &&& after.unrecoverable == w.unrecoverable
            &&& after.parked == w.parked
        }),
    decreases n,
{
    if n > 0 {
        let m = (n - 1) as nat;
        law_restarts_reach_each_node_once(w, keys, m, key);
        law_restarts_reach_each_node_once(w, keys, m, keys[n - 1]);
        assert(w.epoch(keys[n - 1]) < u64::MAX);
        if key == keys[n - 1] {
            assert forall|i: int| 0 <= i < m implies #[trigger] keys[i] != key by {
                assert(keys[i] != keys[n - 1]);
            }
        } else if exists|i: int| 0 <= i < n && #[trigger] keys[i] == key {
            let i = choose|i: int| 0 <= i < n && #[trigger] keys[i] == key;
            assert(i < m);
            assert(0 <= i < m && keys[i] == key);
        }
    }
}

/// The bare-quorum injection lets the node that was away back in without a
/// restart, and restarts the two holders over their rotted copies: of the bare
/// slot no copy reads clean, and every other slot reads as before.
pub proof fn law_bare_quorum_injection_leaves_no_copy(
    w: WorldView,
    keys: Seq<u64>,
    node: int,
    slot: u64,
)
    requires
        log_only(w, keys),
        restartable(w, keys),
        clean_at(w, keys, 0, BARE_SLOT),
        clean_at(w, keys, 1, BARE_SLOT),
        !clean_at(w, keys, 2, BARE_SLOT),
        0 <= node < CORPUS_NODES,
        slot != BARE_SLOT,
    ensures
        ({
            let after = bare_quorum_injected(w, keys);
            &&& !clean_at(after, keys, node, BARE_SLOT)
            &&& clean_at(after, keys, node, slot) == clean_at(w, keys, node, slot)
            &&& !after.held.contains(keys[2])
            &&& forall|k: u64|
                k != keys[2] ==> (#[trigger] after.held.contains(k) <==> w.held.contains(k))
            &&& after.epoch(keys[0]) == w.epoch(keys[0]) + 1
            &&& after.epoch(keys[1]) == w.epoch(keys[1]) + 1
            &&& after.epoch(keys[2]) == w.epoch(keys[2])
            &&& after.disks[keys[0]].snapshot_health != RecordHealth::Clean
            &&& after.disks[keys[1]].snapshot_health != RecordHealth::Clean
            &&& after.disks[keys[2]] == w.disks[keys[2]]
        }),
{
    lemma_rot_idle_snapshot(w, keys, 0);
    let a = w.corrupt_snapshot(keys[0], 0);
    assert(clean_at(a, keys, 0, BARE_SLOT) && clean_at(a, keys, 1, BARE_SLOT));
    lemma_rot_cell(a, keys, 0, BARE_SLOT);
    let b = rot_holder(w, keys, 0);
    assert(clean_at(b, keys, 1, BARE_SLOT));
    lemma_rot_idle_snapshot(b, keys, 1);
    let c = b.corrupt_snapshot(keys[1], 1);
    assert(clean_at(c, keys, 1, BARE_SLOT));
    lemma_rot_cell(c, keys, 1, BARE_SLOT);
    let d = rot_bare_quorum(w, keys);
    assert(!clean_at(d, keys, 0, BARE_SLOT) && !clean_at(d, keys, 1, BARE_SLOT) && !clean_at(
        d,
        keys,
        2,
        BARE_SLOT,
    )) by {
        assert(!clean_at(a, keys, 2, BARE_SLOT));
        assert(!clean_at(b, keys, 2, BARE_SLOT));
        assert(!clean_at(c, keys, 2, BARE_SLOT));
        assert(!clean_at(b, keys, 0, BARE_SLOT));
        assert(!clean_at(c, keys, 0, BARE_SLOT));
    }
    assert(clean_at(d, keys, node, slot) == clean_at(w, keys, node, slot)) by {
        assert(clean_at(a, keys, node, slot) == clean_at(w, keys, node, slot));
        assert(clean_at(b, keys, node, slot) == clean_at(w, keys, node, slot));
        assert(clean_at(c, keys, node, slot) == clean_at(w, keys, node, slot));
    }
    assert(keys[0] != keys[1] && keys[0] != keys[2] && keys[1] != keys[2]);
    assert(log_only_disk(w, keys[0]) && log_only_disk(w, keys[1]) && log_only_disk(w, keys[2]));
    assert(d.restart_epochs == w.restart_epochs);
    assert forall|i: int| 0 <= i < keys.len() implies d.epoch(#[trigger] keys[i]) < u64::MAX by {
        assert(w.epoch(keys[i]) < u64::MAX);
    }
    law_restarts_reach_each_node_once(d, keys, 2, keys[0]);
    law_restarts_reach_each_node_once(d, keys, 2, keys[1]);
    law_restarts_reach_each_node_once(d, keys, 2, keys[2]);
    assert(node == 0 || node == 1 || node == 2);
}

/// A slot mask's injection leaves no live snapshot to restore from: every node's is
/// rotted, whatever the mask.
pub proof fn law_mask_rots_every_snapshot(w: WorldView, keys: Seq<u64>, mask: u16, node: int)
    requires
        log_only(w, keys),
        0 <= node < CORPUS_NODES,
    ensures
        rot_mask(w, keys, mask).disks[keys[node]].snapshot_health != RecordHealth::Clean,
{
    lemma_snapshots_rotted(w, keys, CORPUS_NODES as nat, node);
    lemma_rows_spare_snapshots(
        rot_snapshots(w, keys, CORPUS_NODES as nat),
        keys,
        mask,
        CORPUS_SLOTS as nat,
        keys[node],
    );
}

proof fn lemma_snapshots_rotted(w: WorldView, keys: Seq<u64>, n: nat, node: int)
    requires
        log_only(w, keys),
        n <= CORPUS_NODES,
        0 <= node < CORPUS_NODES,
    ensures
        node < n ==> rot_snapshots(w, keys, n).disks[keys[node]].snapshot_health
            != RecordHealth::Clean,
        log_only(rot_snapshots(w, keys, n), keys),
    decreases n,
{
    if n > 0 {
        let m = (n - 1) as nat;
        lemma_snapshots_rotted(w, keys, m, node);
        let u = rot_snapshots(w, keys, m);
        lemma_rot_idle_snapshot(u, keys, n - 1);
        assert(log_only_disk(u, keys[n - 1]));
        if node != n - 1 {
            assert(keys[node] != keys[n - 1]);
        }
    }
}

proof fn lemma_row_spares_snapshots(
    w: WorldView,
    keys: Seq<u64>,
    mask: u16,
    slot: u64,
    n: nat,
    key: u64,
)
    ensures
        rot_row(w, keys, mask, slot, n).disks[key].snapshot_health == w.disks[key].snapshot_health,
    decreases n,
{
    if n > 0 {
        lemma_row_spares_snapshots(w, keys, mask, slot, (n - 1) as nat, key);
    }
}

proof fn lemma_rows_spare_snapshots(w: WorldView, keys: Seq<u64>, mask: u16, s: nat, key: u64)
    ensures
        rot_rows(w, keys, mask, s).disks[key].snapshot_health == w.disks[key].snapshot_health,
    decreases s,
{
    if s > 0 {
        let m = (s - 1) as nat;
        lemma_rows_spare_snapshots(w, keys, mask, m, key);
        lemma_row_spares_snapshots(
            rot_rows(w, keys, mask, m),
            keys,
            mask,
            m as u64,
            CORPUS_NODES as nat,
            key,
        );
    }
}

} // verus!
