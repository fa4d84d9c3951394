//! A matchmaker's handle onto its slice of the durable world.
//!
//! Writes stage in order and reach the world only on a sync, so a crash before
//! the fsync loses the whole un-synced batch. The registry has no torn-write
//! story of its own: a matchmaker whose state is lost for good is replaced.
use crate::faults::StorageFaults;
use crate::ordered::{ascending, lists};
use crate::records::{Ballot, StorageError, StorageRecord, WriteOutcome, copy_bytes};
use crate::registry::{
    MatchmakerDisk, MatchmakerScalars, Registrations, RegistryView, Staged, StagedView,
    copy_registrations,
};
use crate::shape::MATCHMAKER_LOSS_FLOOR;
use crate::world::{StorageWorld, WorldView};
use vstd::prelude::*;

verus! {

pub struct DurableMatchmakerStorage {
    /// The durable records as of this boot.
    pub boot: MatchmakerDisk,
    /// The matchmaker's key into the world.
    pub key: u64,
    pub staged: Vec<Staged>,
    pub faults: StorageFaults,
    /// The deployment's bootstrap matchmaker count.
    pub bootstrap: usize,
}

pub struct MatchmakerStorageView {
    pub boot: RegistryView,
    pub key: u64,
    pub staged: Seq<StagedView>,
    pub faults: StorageFaults,
    pub bootstrap: nat,
}

/// The staged writes, each by its view.
pub open spec fn staged_views(staged: Seq<Staged>) -> Seq<StagedView> {
    Seq::new(staged.len(), |i: int| staged[i]@)
}

impl View for DurableMatchmakerStorage {
    type V = MatchmakerStorageView;

    open spec fn view(&self) -> MatchmakerStorageView {
        MatchmakerStorageView {
            boot: self.boot@,
            key: self.key,
            staged: staged_views(self.staged@),
            faults: self.faults,
            bootstrap: self.bootstrap as nat,
        }
    }
}

impl MatchmakerStorageView {
    /// A sync of the staged registry changes: the handle and the world after it,
    /// and what it returned. A batch that fails is lost whole.
    pub open spec fn sync_step(
        self,
        w: WorldView,
        now_ns: u64,
        fails: bool,
    ) -> (MatchmakerStorageView, WorldView, RegistrySynced) {
        let drained = MatchmakerStorageView { staged: Seq::empty(), ..self };
        if self.staged.len() == 0 {
            (drained, w, RegistrySynced { result: Ok(()), write_once: true })
        } else if self.faults.live(now_ns) && fails && w.may_fail_sync(self.key, self.bootstrap) {
            (
                drained,
                w.fail_sync(self.key, self.bootstrap),
                RegistrySynced {
                    result: Err(
                        StorageError::FsyncFailed {
                            record: StorageRecord::Batch,
                            outcome: WriteOutcome::Lost,
                        },
                    ),
                    write_once: true,
                },
            )
        } else {
            let registry = w.registry_of(self.key);
            (
                drained,
                w.with_registry(self.key, registry.apply_all(self.staged)),
                RegistrySynced {
                    result: Ok(()),
                    write_once: registry.all_write_once(self.staged),
                },
            )
        }
    }

    /// What a boot over `w` opens: the durable records, and an empty stage.
    pub open spec fn opened(
        w: WorldView,
        key: u64,
        faults: StorageFaults,
        bootstrap: nat,
    ) -> MatchmakerStorageView {
        MatchmakerStorageView { boot: w.registry_of(key), key, staged: Seq::empty(), faults, bootstrap }
    }
}

impl WorldView {
    /// A strict majority of a matchmaker set.
    pub open spec fn matchmaker_quorum(bootstrap: nat) -> nat {
        bootstrap / 2 + 1
    }

    /// At most one fewer than a quorum of the bootstrap set may ever fail a
    /// sync.
    pub open spec fn may_fail_sync(self, key: u64, bootstrap: nat) -> bool {
        self.sick_matchmakers.contains(key) || self.sick_matchmakers.len() + 1
            < WorldView::matchmaker_quorum(bootstrap)
    }

    pub open spec fn fail_sync(self, key: u64, bootstrap: nat) -> WorldView {
        if self.may_fail_sync(key, bootstrap) {
            WorldView { sick_matchmakers: self.sick_matchmakers.insert(key), ..self }
        } else {
            self
        }
    }

    /// Whether a matchmaker's registry may be lost for good: one per run, and
    /// only where the bootstrap set can spare a member.
    pub open spec fn may_lose_registry(self, key: u64, bootstrap: nat) -> bool {
        bootstrap >= MATCHMAKER_LOSS_FLOOR && self.lost_matchmakers.subset_of(set![key])
    }

    pub open spec fn lose_registry(self, key: u64, bootstrap: nat) -> WorldView {
        if self.may_lose_registry(key, bootstrap) {
            WorldView { lost_matchmakers: self.lost_matchmakers.insert(key), ..self }
        } else {
            self
        }
    }

    pub open spec fn registry_of(self, key: u64) -> RegistryView {
        if self.matchmakers.contains_key(key) {
            self.matchmakers[key]
        } else {
            RegistryView::blank()
        }
    }

    pub open spec fn with_registry(self, key: u64, registry: RegistryView) -> WorldView {
        WorldView { matchmakers: self.matchmakers.insert(key, registry), ..self }
    }
}

/// The outcome of a matchmaker sync: what the node is told, and whether every
/// flushed registration was written once.
pub struct RegistrySynced {
    pub result: Result<(), StorageError>,
    pub write_once: bool,
}

impl StorageWorld {
    /// Whether a matchmaker's sync may fail, so that a matchmaking quorum
    /// stays healthy.
    pub fn permit_matchmaker_sync_failure(&mut self, key: u64, bootstrap: usize) -> (permitted: bool)
        ensures
            permitted == old(self)@.may_fail_sync(key, bootstrap as nat),
            final(self)@ == old(self)@.fail_sync(key, bootstrap as nat),
    {
        if !self.sick_matchmakers.contains(key) && self.sick_matchmakers.len() >= bootstrap / 2 {
            return false;
        }
        self.sick_matchmakers.insert(key);
        true
    }

    /// Lose a matchmaker's registry for good, where the loss budget allows it.
    /// Whether it is lost.
    pub fn park_matchmaker(&mut self, key: u64, bootstrap: usize) -> (parked: bool)
        ensures
            parked == (bootstrap >= MATCHMAKER_LOSS_FLOOR && old(self)@.lost_matchmakers.subset_of(
                set![key],
            )),
            final(self)@ == old(self)@.lose_registry(key, bootstrap as nat),
    {
        let spare = self.lost_matchmakers.is_empty() || (self.lost_matchmakers.len() == 1
            && self.lost_matchmakers.contains(key));
        proof {
            lemma_one_member(self@.lost_matchmakers, key);
        }
        if bootstrap < MATCHMAKER_LOSS_FLOOR || !spare {
            return false;
        }
        self.lost_matchmakers.insert(key);
        true
    }

    /// Whether a matchmaker's registry is lost for good.
    pub fn is_matchmaker_parked(&self, key: u64) -> (parked: bool)
        ensures
            parked == self@.lost_matchmakers.contains(key),
    {
        self.lost_matchmakers.contains(key)
    }
}

impl DurableMatchmakerStorage {
    /// Open a handle, seeded from any durable records a prior boot left.
    pub fn restore(world: &StorageWorld, key: u64, faults: StorageFaults, bootstrap: usize) -> (storage:
        DurableMatchmakerStorage)
        ensures
            storage@ == MatchmakerStorageView::opened(world@, key, faults, bootstrap as nat),
    {
        let boot = match world.matchmakers.get(key) {
            Some(disk) => MatchmakerDisk {
                hard_state: disk.hard_state.copied(),
                registry: copy_registrations(&disk.registry),
            },
            None => MatchmakerDisk::blank(),
        };
        let storage = DurableMatchmakerStorage {
            boot,
            key,
            staged: Vec::new(),
            faults,
            bootstrap,
        };
        assert(storage@.staged =~= Seq::<StagedView>::empty());
        assert(storage@.boot =~= world@.registry_of(key));
        storage
    }

    pub fn key(&self) -> (key: u64)
        ensures
            key == self@.key,
    {
        self.key
    }

    /// The scalars as of this boot.
    pub fn initial_state(&self) -> (scalars: MatchmakerScalars)
        ensures
            scalars@ == self@.boot.hard_state,
    {
        self.boot.hard_state.copied()
    }

    /// The registration under `ballot` as of this boot.
    pub fn registration(&self, ballot: Ballot) -> (registration: Option<Vec<u8>>)
        ensures
            match registration {
                Some(bytes) => self@.boot.registry.contains_key(ballot) && bytes@
                    == self@.boot.registry[ballot],
                None => !self@.boot.registry.contains_key(ballot),
            },
    {
        match self.boot.registry.get(ballot) {
            Some(bytes) => Some(copy_bytes(bytes)),
            None => None,
        }
    }

    /// The registered ballots as of this boot, in order.
    pub fn registered_ballots(&self) -> (ballots: Vec<Ballot>)
        ensures
            ballots@ == ascending(self@.boot.registry.dom()),
            lists(ballots@, self@.boot.registry.dom()),
    {
        let mut ballots: Vec<Ballot> = Vec::new();
        let n = self.boot.registry.len();
        let ghost list = ascending(self.boot.registry@.dom());
        let mut i: usize = 0;
        while i < n
            invariant
                i <= n,
                n == self.boot.registry@.dom().len(),
                n == list.len(),
                list == ascending(self.boot.registry@.dom()),
                ballots@ == list.take(i as int),
            decreases n - i,
        {
            ballots.push(self.boot.registry.key_at(i));
            i = i + 1;
            assert(ballots@ =~= list.take(i as int));
        }
        assert(ballots@ =~= list);
        ballots
    }

    fn stage(&mut self, op: Staged)
        ensures
            final(self)@ == (MatchmakerStorageView {
                staged: old(self)@.staged.push(op@),
                ..old(self)@
            }),
    {
        self.staged.push(op);
        assert(self@.staged =~= old(self)@.staged.push(op@));
    }

    pub fn register(&mut self, ballot: Ballot, registration: Vec<u8>)
        ensures
            final(self)@ == (MatchmakerStorageView {
                staged: old(self)@.staged.push(StagedView::Register(ballot, registration@)),
                ..old(self)@
            }),
    {
        self.stage(Staged::Register(ballot, registration));
    }

    pub fn set_gc_watermark(&mut self, watermark: Ballot)
        ensures
            final(self)@ == (MatchmakerStorageView {
                staged: old(self)@.staged.push(StagedView::Watermark(watermark)),
                ..old(self)@
            }),
    {
        self.stage(Staged::Watermark(watermark));
    }

    pub fn set_scalars(&mut self, scalars: MatchmakerScalars)
        ensures
            final(self)@ == (MatchmakerStorageView {
                staged: old(self)@.staged.push(StagedView::Scalars(scalars@)),
                ..old(self)@
            }),
    {
        self.stage(Staged::Scalars(scalars));
    }

    pub fn install_registry(&mut self, scalars: MatchmakerScalars, registrations: Registrations)
        ensures
            final(self)@ == (MatchmakerStorageView {
                staged: old(self)@.staged.push(
                    StagedView::Install(scalars@, registrations@),
                ),
                ..old(self)@
            }),
    {
        self.stage(Staged::Install(scalars, registrations));
    }

    /// The sync: the whole stage reaches the world in the order it was
    /// written. `fails` is the site's coin; a failure loses the stage whole and
    /// is inside the world's budget.
    pub fn sync(&mut self, world: &mut StorageWorld, now_ns: u64, fails: bool) -> (synced:
        RegistrySynced)
        ensures
            ({
                let step = old(self)@.sync_step(old(world)@, now_ns, fails);
                &&& final(self)@ == step.0
                &&& final(world)@ == step.1
                &&& synced == step.2
            }),
    {
        let mut staged: Vec<Staged> = Vec::new();
        std::mem::swap(&mut staged, &mut self.staged);
        let ghost ops = staged_views(staged@);
        assert(self@.staged =~= Seq::<StagedView>::empty());
        if staged.len() == 0 {
            return RegistrySynced { result: Ok(()), write_once: true };
        }
        if self.faults.active(now_ns) && fails {
            if world.permit_matchmaker_sync_failure(self.key, self.bootstrap) {
                return RegistrySynced {
                    result: Err(
                        StorageError::FsyncFailed {
                            record: StorageRecord::Batch,
                            outcome: WriteOutcome::Lost,
                        },
                    ),
                    write_once: true,
                };
            }
        }
        let ghost w = world@;
        let mut disk = match world.matchmakers.remove(self.key) {
            Some(disk) => disk,
            None => MatchmakerDisk::blank(),
        };
        let ghost before = disk@;
        assert(before =~= w.registry_of(self@.key));
        let mut write_once = true;
        let ghost mut done: int = 0;
        let ghost all = staged@;
        assert(ops.take(0) =~= Seq::<StagedView>::empty());
        while staged.len() > 0
            invariant
                0 <= done <= all.len(),
                staged@ == all.skip(done),
                ops == staged_views(all),
                disk@ == before.apply_all(ops.take(done)),
                write_once == before.all_write_once(ops.take(done)),
            decreases staged.len(),
        {
            let op = staged.remove(0);
            proof {
                assert(op == all[done]);
                assert(ops[done] == op@);
                assert(ops.take(done + 1).drop_last() =~= ops.take(done));
                assert(ops.take(done + 1).last() == op@);
            }
            let once = disk.apply(op);
            write_once = write_once && once;
            proof {
                done = done + 1;
                assert(staged@ =~= all.skip(done));
            }
        }
        assert(ops.take(done) =~= ops);
        let ghost after = disk@;
        world.matchmakers.insert(self.key, disk);
        assert(world@.matchmakers =~= w.with_registry(self@.key, after).matchmakers);
        RegistrySynced { result: Ok(()), write_once }
    }
}

/// A synced batch is what the next boot reads back, and a write that was only
/// staged after it does not survive the crash.
pub proof fn law_synced_registry_reads_back(
    w: WorldView,
    crashed: MatchmakerStorageView,
    ops: Seq<StagedView>,
)
    ensures
        ({
            let synced = w.with_registry(
                crashed.key,
                w.registry_of(crashed.key).apply_all(ops),
            );
            let reopened = MatchmakerStorageView::opened(
                synced,
                crashed.key,
                crashed.faults,
                crashed.bootstrap,
            );
            &&& reopened.boot == w.registry_of(crashed.key).apply_all(ops)
            &&& reopened.staged == Seq::<StagedView>::empty()
        }),
{
}

proof fn lemma_one_member(set: Set<u64>, key: u64)
    requires
        set.finite(),
    ensures
        set.subset_of(set![key]) <==> set.len() == 0 || (set.len() == 1 && set.contains(key)),
{
    if set.subset_of(set![key]) {
        vstd::set_lib::lemma_len_subset(set, set![key]);
        if set.len() != 0 {
            let member = set.choose();
            assert(set.contains(member));
            assert(set![key].contains(member));
        }
    } else if set.contains(key) {
        let other = choose|k: u64| #[trigger] set.contains(k) && !set![key].contains(k);
        assert(set.remove(key).contains(other));
        assert(set.remove(key).len() == set.len() - 1);
    } else if set.len() == 0 {
        let other = choose|k: u64| #[trigger] set.contains(k) && !set![key].contains(k);
        assert(set.contains(other));
    }
}

/// A run loses at most one matchmaker for good, and only where the members left
/// of the bootstrap set still make a quorum of it.
pub proof fn law_lost_registry_leaves_a_quorum(w: WorldView, key: u64, bootstrap: nat)
    requires
        w.lost_matchmakers.finite(),
        w.lost_matchmakers.len() <= 1,
    ensures
        ({
            let after = w.lose_registry(key, bootstrap);
            &&& after.lost_matchmakers.len() <= 1
            &&& after.lost_matchmakers != w.lost_matchmakers ==> bootstrap
                - after.lost_matchmakers.len() >= WorldView::matchmaker_quorum(bootstrap)
        }),
{
    if w.may_lose_registry(key, bootstrap) {
        assert(w.lost_matchmakers.insert(key) =~= set![key]);
    }
}

/// A quorum of the bootstrap set is never sick at once. Of an odd-sized set a
/// quorum stays healthy, too.
pub proof fn law_matchmaker_quorum_stays_healthy(w: WorldView, key: u64, bootstrap: nat)
    requires
        w.sick_matchmakers.finite(),
        w.sick_matchmakers.len() < WorldView::matchmaker_quorum(bootstrap),
    ensures
        w.fail_sync(key, bootstrap).sick_matchmakers.len() < WorldView::matchmaker_quorum(
            bootstrap,
        ),
        bootstrap % 2 == 1 ==> bootstrap - w.fail_sync(key, bootstrap).sick_matchmakers.len()
            >= WorldView::matchmaker_quorum(bootstrap),
{
    if w.sick_matchmakers.contains(key) {
        assert(w.sick_matchmakers.insert(key) =~= w.sick_matchmakers);
    }
}

} // verus!
