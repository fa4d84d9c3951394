//! The storage oracle: the fault ledgers folded for the end-of-run check, and
//! the gates a run must pass.
use crate::ordered::{OrdSet, ascending, lemma_walk, lists, walked};
use crate::world::{
    CorruptionInjection, CorruptionKind, CorruptionOutcome, InjectedFault, InjectedFaultKind,
    Sighting, StorageWorld, WorldView, less,
};
use vstd::prelude::*;

verus! {

/// The write-path faults of a run, folded.
#[derive(Clone, Copy, Debug, PartialEq, Eq, Structural)]
pub struct StorageFaultStats {
    /// How many faults were permitted.
    pub injected: usize,
    /// All four quadrants of the ambiguity.
    pub eio_landed: bool,
    pub eio_lost: bool,
    pub fsync_durable: bool,
    pub fsync_lost: bool,
    /// Re-derived from the world as it stands: every marked record still has a
    /// quorum of nodes that can serve it.
    pub clean_quorum_everywhere: bool,
}

/// Some injected fault is of that kind and leg.
pub open spec fn injected_leg(
    injected: Seq<InjectedFault>,
    kind: InjectedFaultKind,
    persisted: bool,
) -> bool {
    exists|i: int|
        0 <= i < injected.len() && (#[trigger] injected[i]).kind == kind && injected[i].persisted
            == persisted
}

/// The corruptions of a run, folded.
pub struct CorruptionStats {
    pub injected: usize,
    /// Ledger entries that surfaced as the one typed crash decision.
    pub crashed: u64,
    /// Every entry is resolved, or legitimately unread.
    pub accounted: bool,
    pub parked: usize,
    pub parked_within_budget: bool,
    pub seen: OrdSet<Sighting>,
}

/// How many entries surfaced as a crash decision.
pub open spec fn crash_count(corruptions: Seq<CorruptionInjection>) -> nat
    decreases corruptions.len(),
{
    if corruptions.len() == 0 {
        0
    } else {
        crash_count(corruptions.drop_last()) + if corruptions.last().outcome
            == CorruptionOutcome::Crashed {
            1nat
        } else {
            0nat
        }
    }
}

impl WorldView {
    /// An unread injection is legal only where nothing could have read it: its
    /// node parked first, or a torn tail the run ended before rebooting.
    pub open spec fn legally_unread(self, injection: CorruptionInjection) -> bool {
        injection.kind == CorruptionKind::TornTail || self.parked_ids.contains(injection.node)
    }

    /// Every injection is resolved or legally unread.
    pub open spec fn accounted(self) -> bool {
        forall|i: int|
            0 <= i < self.corruptions.len() && (#[trigger] self.corruptions[i]).outcome
                == CorruptionOutcome::Dormant ==> self.legally_unread(self.corruptions[i])
    }
}

/// The always-gates of a run's storage: each must hold.
#[derive(Clone, Copy, Debug, PartialEq, Eq, Structural)]
pub struct StorageVerdict {
    /// Every injected write-path fault surfaced as exactly one crash decision.
    pub faults_surfaced: bool,
    /// No fault cost a record its clean quorum.
    pub clean_quorum: bool,
    /// Every exercised corruption is exactly one crash decision.
    pub corruptions_surfaced: bool,
    pub accounted: bool,
    /// Corruption never parked a quorum of nodes.
    pub parked_within_budget: bool,
    /// Corruption compounded with a lagging follower: a coverage fact, not a
    /// gate.
    pub compound: bool,
}

impl StorageVerdict {
    pub open spec fn passes(self) -> bool {
        self.faults_surfaced && self.clean_quorum && self.corruptions_surfaced && self.accounted
            && self.parked_within_budget
    }

    /// Whether every gate holds.
    pub fn sound(self) -> (sound: bool)
        ensures
            sound == self.passes(),
    {
        self.faults_surfaced && self.clean_quorum && self.corruptions_surfaced && self.accounted
            && self.parked_within_budget
    }
}

impl WorldView {
    /// The verdict on a run that surfaced so many faults and corruptions.
    pub open spec fn storage_verdict(
        self,
        faults_detected: u64,
        corruptions_detected: u64,
        lag_observed: bool,
    ) -> StorageVerdict {
        StorageVerdict {
            faults_surfaced: faults_detected == self.injected.len(),
            clean_quorum: self.clean_quorum_everywhere(),
            corruptions_surfaced: corruptions_detected == crash_count(self.corruptions),
            accounted: self.accounted(),
            parked_within_budget: self.parked_within_budget(),
            compound: self.corruptions.len() > 0 && lag_observed,
        }
    }
}

impl StorageWorld {
    fn leg_injected(&self, kind: InjectedFaultKind, persisted: bool) -> (found: bool)
        ensures
            found == injected_leg(self@.injected, kind, persisted),
    {
        let mut i: usize = 0;
        while i < self.injected.len()
            invariant
                i <= self.injected@.len(),
                forall|j: int|
                    0 <= j < i ==> !((#[trigger] self.injected@[j]).kind == kind
                        && self.injected@[j].persisted == persisted),
            decreases self.injected@.len() - i,
        {
            let fault = self.injected[i];
            if fault.kind == kind && fault.persisted == persisted {
                return true;
            }
            i = i + 1;
        }
        false
    }

    /// Whether every marked record still has a quorum of nodes to serve it.
    pub fn clean_quorum_everywhere(&self) -> (clean: bool)
        ensures
            clean == self@.clean_quorum_everywhere(),
    {
        let quorum = self.quorum();
        let slots = self.marked_slots();
        let n = slots.len();
        let mut i: usize = 0;
        proof {
            lemma_walk(slots@, 0);
        }
        while i < n
            invariant
                i <= n,
                n == slots@.len(),
                n == ascending(slots@).len(),
                lists(ascending(slots@), slots@),
                quorum == self@.quorum(),
                forall|slot: u64| #[trigger] slots@.contains(slot) <==> self@.marked_anywhere(slot),
                forall|slot: u64| #[trigger]
                    walked(slots@, i as int).contains(slot) ==> less(
                        self@.cluster_size,
                        self@.lost_at(slot).len(),
                    ) >= quorum,
            decreases n - i,
        {
            proof {
                lemma_walk(slots@, i as int);
            }
            let slot = slots.at(i);
            if self.servers_of(slot) < quorum {
                assert(self@.marked_anywhere(slot));
                return false;
            }
            i = i + 1;
        }
        proof {
            lemma_walk(slots@, n as int);
            assert forall|slot: u64| #[trigger] self@.marked_anywhere(slot) implies less(
                self@.cluster_size,
                self@.lost_at(slot).len(),
            ) >= quorum by {
                assert(walked(slots@, n as int).contains(slot));
            }
        }
        true
    }

    /// Fold the write-path fault ledger.
    pub fn storage_fault_stats(&self) -> (stats: StorageFaultStats)
        ensures
            stats.injected == self@.injected.len(),
            stats.eio_landed == injected_leg(self@.injected, InjectedFaultKind::WriteEio, true),
            stats.eio_lost == injected_leg(self@.injected, InjectedFaultKind::WriteEio, false),
            stats.fsync_durable == injected_leg(
                self@.injected,
                InjectedFaultKind::FsyncFailed,
                true,
            ),
            stats.fsync_lost == injected_leg(self@.injected, InjectedFaultKind::FsyncFailed, false),
            stats.clean_quorum_everywhere == self@.clean_quorum_everywhere(),
    {
        StorageFaultStats {
            injected: self.injected.len(),
            eio_landed: self.leg_injected(InjectedFaultKind::WriteEio, true),
            eio_lost: self.leg_injected(InjectedFaultKind::WriteEio, false),
            fsync_durable: self.leg_injected(InjectedFaultKind::FsyncFailed, true),
            fsync_lost: self.leg_injected(InjectedFaultKind::FsyncFailed, false),
            clean_quorum_everywhere: self.clean_quorum_everywhere(),
        }
    }

    fn crashes(&self) -> (crashed: u64)
        ensures
            crashed == crash_count(self@.corruptions),
    {
        let mut crashed: u64 = 0;
        let mut i: usize = 0;
        assert(self.corruptions@.take(0) =~= Seq::<CorruptionInjection>::empty());
        while i < self.corruptions.len()
            invariant
                i <= self.corruptions@.len(),
                crashed <= i,
                crashed == crash_count(self.corruptions@.take(i as int)),
            decreases self.corruptions@.len() - i,
        {
            proof {
                assert(self.corruptions@.take(i + 1).drop_last() =~= self.corruptions@.take(
                    i as int,
                ));
                assert(self.corruptions@.take(i + 1).last() == self.corruptions@[i as int]);
            }
            if self.corruptions[i].outcome == CorruptionOutcome::Crashed {
                crashed = crashed + 1;
            }
            i = i + 1;
        }
        assert(self.corruptions@.take(i as int) =~= self.corruptions@);
        crashed
    }

    fn accounted(&self) -> (accounted: bool)
        ensures
            accounted == self@.accounted(),
    {
        let mut i: usize = 0;
        while i < self.corruptions.len()
            invariant
                i <= self.corruptions@.len(),
                forall|j: int|
                    0 <= j < i && (#[trigger] self@.corruptions[j]).outcome
                        == CorruptionOutcome::Dormant ==> self@.legally_unread(
                        self@.corruptions[j],
                    ),
            decreases self.corruptions@.len() - i,
        {
            let injection = self.corruptions[i];
            if injection.outcome == CorruptionOutcome::Dormant {
                let legal = injection.kind == CorruptionKind::TornTail || self.parked_ids.contains(
                    injection.node,
                );
                if !legal {
                    assert(!self@.legally_unread(self@.corruptions[i as int]));
                    return false;
                }
            }
            i = i + 1;
        }
        true
    }

    /// Fold the corruption ledger.
    pub fn corruption_stats(&self) -> (stats: CorruptionStats)
        ensures
            stats.injected == self@.corruptions.len(),
            stats.crashed == crash_count(self@.corruptions),
            stats.accounted == self@.accounted(),
            stats.parked == self@.parked.len(),
            stats.parked_within_budget == self@.parked_within_budget(),
            stats.seen@ == self@.seen,
    {
        let parked = self.parked.len();
        CorruptionStats {
            injected: self.corruptions.len(),
            crashed: self.crashes(),
            accounted: self.accounted(),
            parked,
            parked_within_budget: parked <= self.dead_budget(),
            seen: self.seen.copied(),
        }
    }

    /// The storage gates, against what the audit saw: the write-path faults and
    /// the corruptions it detected as crash decisions, and whether a follower
    /// lagged.
    pub fn check_storage_gates(
        &self,
        faults_detected: u64,
        corruptions_detected: u64,
        lag_observed: bool,
    ) -> (verdict: StorageVerdict)
        ensures
            verdict == self@.storage_verdict(faults_detected, corruptions_detected, lag_observed),
    {
        let faults = self.storage_fault_stats();
        let corruption = self.corruption_stats();
        StorageVerdict {
            faults_surfaced: faults_detected == faults.injected as u64,
            clean_quorum: faults.clean_quorum_everywhere,
            corruptions_surfaced: corruptions_detected == corruption.crashed,
            accounted: corruption.accounted,
            parked_within_budget: corruption.parked_within_budget,
            compound: corruption.injected > 0 && lag_observed,
        }
    }
}

} // verus!
