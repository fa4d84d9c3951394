//! The life of one process: which ranks it bootstraps with, whether it may boot
//! at all, and what each way out of its driver leads to.
//!
//! The caller runs the driver; everything decided around it is decided here.
use crate::draws::knob;
use crate::records::{AppState, AppView};
use crate::roles::Role;
use crate::shape::{MIN_BOOTSTRAP, Registry, RegistryView, all_ranks, config_floor, drawn_ranks};
use crate::world::{StorageWorld, WorldView};
use crate::CHAOS_DURATION_MS;
use vstd::prelude::*;

verus! {

/// The shortest and the longest delay of a delayed restart, in simulated
/// milliseconds.
pub const MIN_RESTART_DELAY_MS: u64 = 250;

pub const MAX_RESTART_DELAY_MS: u64 = 3000;

/// How a process is perturbed.
#[derive(Clone, Copy, Debug, PartialEq, Eq, Structural)]
pub enum NodeMode {
    /// The driver's hooks, the disk's fault sites and the transport knobs are
    /// all live inside the chaos window.
    Chaotic,
    /// Every fault is a targeted injection, so that a case replays as
    /// choreographed and the world runs unbudgeted.
    Scripted,
}

/// An acceptor in the simulation.
#[derive(Clone, Copy, Debug, PartialEq, Eq, Structural)]
pub struct NodeProcess {
    pub mode: NodeMode,
    /// A scripted case's fixed bootstrap size; none draws per the mode.
    pub bootstrap: Option<usize>,
}

/// A matchmaker in the simulation.
#[derive(Clone, Copy, Debug, PartialEq, Eq, Structural)]
pub struct MatchmakerProcess {
    /// Whether the hooks, the shape knobs and the loss coin are live, as in the
    /// main campaign, or dark, as in a scripted case.
    pub perturb: bool,
}

/// Whether a process may boot, and why it stays down if not.
#[derive(Clone, Copy, Debug, PartialEq, Eq, Structural)]
pub enum BootGate {
    /// The operator retired the identity.
    Retired,
    /// Its disk was wiped: an empty disk under an old identity would deny what
    /// it voted for.
    Wiped,
    /// A detected persistent fault parked it: the boot scan would find the same
    /// record forever.
    Parked,
    Boot,
}

/// How a driver ended.
#[derive(Clone, Copy, Debug, PartialEq, Eq, Structural)]
pub enum RunExit {
    /// A crash injected at a durability seam.
    SeamCrash,
    /// A storage fault surfaced.
    Storage,
    /// The infrastructure failed.
    Infra,
    Clean,
}

/// What follows.
#[derive(Clone, Copy, Debug, PartialEq, Eq, Structural)]
pub enum ExitStep {
    /// Rebuild from the durable world and run again, after a delay.
    Restart { delay_ms: u64 },
    /// Stay down for the run.
    StayDown,
    /// Hand the failure on.
    Fail,
    Done,
}

/// What a node that carries these marks does at boot.
pub open spec fn boot_gate(retired: bool, wiped: bool, parked: bool) -> BootGate {
    if retired {
        BootGate::Retired
    } else if wiped {
        BootGate::Wiped
    } else if parked {
        BootGate::Parked
    } else {
        BootGate::Boot
    }
}

/// A drawn restart delay: none, or one in range.
pub open spec fn restart_delay(delay_ms: u64) -> bool {
    delay_ms == 0 || MIN_RESTART_DELAY_MS <= delay_ms <= MAX_RESTART_DELAY_MS
}

/// What follows a node's exit, given whether it is parked and the delay drawn
/// for it.
pub open spec fn node_exit_step(exit: RunExit, parked: bool, delay_ms: u64) -> ExitStep {
    match exit {
        RunExit::SeamCrash => ExitStep::Restart { delay_ms },
        RunExit::Storage => if parked {
            ExitStep::StayDown
        } else {
            ExitStep::Restart { delay_ms }
        },
        RunExit::Infra => ExitStep::Fail,
        RunExit::Clean => ExitStep::Done,
    }
}

/// The cluster size the fault budget counts on: the smallest configuration that
/// a run may shrink to.
pub open spec fn budget_floor(pool: usize, has_matchmakers: bool) -> nat {
    if has_matchmakers && pool > MIN_BOOTSTRAP {
        MIN_BOOTSTRAP as nat
    } else {
        pool as nat
    }
}

/// What a scripted node does between incarnations, by how the world has it.
pub open spec fn hold_gate(w: WorldView, key: u64, shutdown: bool) -> HoldGate {
    if w.parked.contains(key) {
        HoldGate::StayDown
    } else if !w.held.contains(key) {
        HoldGate::Boot { epoch: w.epoch(key) }
    } else if shutdown {
        HoldGate::Stop
    } else {
        HoldGate::Wait
    }
}

impl NodeProcess {
    /// The world with what it takes from its first process fixed.
    pub open spec fn prepared(
        self,
        w: WorldView,
        pool: usize,
        has_matchmakers: bool,
        lanes: u8,
        empty: AppView,
    ) -> WorldView {
        WorldView {
            cluster_size: if w.cluster_size == 0 {
                budget_floor(pool, has_matchmakers)
            } else {
                w.cluster_size
            },
            unbudgeted: w.unbudgeted || self.mode == NodeMode::Scripted,
            lane_count: match w.lane_count {
                Some(fixed) => Some(fixed),
                None => Some(lanes),
            },
            empty: match w.lane_count {
                Some(fixed) => w.empty,
                None => empty,
            },
            ..w
        }
    }

    /// The wipe coin is tossed at this boot.
    pub open spec fn tosses_wipe(self, restart: bool, has_matchmakers: bool, now_ms: u64) -> bool {
        restart && self.mode == NodeMode::Chaotic && has_matchmakers && now_ms < CHAOS_DURATION_MS
    }

    pub fn chaotic() -> (process: NodeProcess)
        ensures
            process == (NodeProcess { mode: NodeMode::Chaotic, bootstrap: None }),
    {
        NodeProcess { mode: NodeMode::Chaotic, bootstrap: None }
    }

    pub fn scripted() -> (process: NodeProcess)
        ensures
            process == (NodeProcess { mode: NodeMode::Scripted, bootstrap: None }),
    {
        NodeProcess { mode: NodeMode::Scripted, bootstrap: None }
    }

    /// A scripted node whose bootstrap configuration is the first `bootstrap`
    /// ranks of the pool, the rest being spares.
    pub fn scripted_with_bootstrap(bootstrap: usize) -> (process: NodeProcess)
        ensures
            process == (NodeProcess { mode: NodeMode::Scripted, bootstrap: Some(bootstrap) }),
    {
        NodeProcess { mode: NodeMode::Scripted, bootstrap: Some(bootstrap) }
    }

    pub fn perturbs(&self) -> (perturbs: bool)
        ensures
            perturbs == (self.mode == NodeMode::Chaotic),
    {
        self.mode == NodeMode::Chaotic
    }

    /// The rank of the acceptor this process runs, if that is its role.
    pub fn rank(&self, role: Option<Role>) -> (rank: Option<u64>)
        ensures
            rank == match role {
                Some(Role::Acceptor(rank)) => Some(rank),
                _ => None,
            },
    {
        match role {
            Some(Role::Acceptor(rank)) => Some(rank),
            _ => None,
        }
    }

    /// The bootstrap ranks of this process's run: the fixed ones of a scripted
    /// case, or the run's own draw.
    pub fn bootstrap_ranks(&self, registry: &mut Registry, pool: usize, has_matchmakers: bool) -> (ranks:
        Vec<u64>)
        ensures
            final(registry)@ == (RegistryView { bootstrap: Some(ranks@), ..old(registry)@ }),
            match old(registry)@.bootstrap {
                Some(fixed) => ranks@ == fixed,
                None => match self.bootstrap {
                    Some(n) => ranks@ == all_ranks(n as nat),
                    None => if self.mode == NodeMode::Chaotic && has_matchmakers && pool
                        > MIN_BOOTSTRAP {
                        drawn_ranks(ranks@, pool as nat, MIN_BOOTSTRAP as nat)
                    } else {
                        ranks@ == all_ranks(pool as nat)
                    },
                },
            },
    {
        match self.bootstrap {
            Some(n) => registry.fixed_bootstrap_ranks(n),
            None => registry.bootstrap_ranks(pool, has_matchmakers, self.perturbs()),
        }
    }

    /// Fix what the run's world takes from its first process: the budget's
    /// cluster size, the lane count and the empty application state, and the
    /// lifted budget of a scripted run. Whether the cluster size agrees with
    /// the one already fixed.
    pub fn prepare_world(
        &self,
        world: &mut StorageWorld,
        pool: usize,
        has_matchmakers: bool,
        lanes: u8,
        empty: AppState,
    ) -> (agrees: bool)
        ensures
            final(world)@ == self.prepared(old(world)@, pool, has_matchmakers, lanes, empty@),
            agrees == (final(world)@.cluster_size == budget_floor(pool, has_matchmakers)),
    {
        let agrees = world.set_cluster_size(config_floor(pool, has_matchmakers));
        if !self.perturbs() {
            world.set_unbudgeted();
        }
        world.set_lane_count(lanes, empty);
        agrees
    }

    /// Whether the wipe coin is tossed at this boot: only where a restarted
    /// node could be replaced, and only inside the chaos window.
    pub fn wipe_coin_live(&self, restart: bool, has_matchmakers: bool, now_ms: u64) -> (live: bool)
        ensures
            live == self.tosses_wipe(restart, has_matchmakers, now_ms),
    {
        restart && self.perturbs() && has_matchmakers && now_ms < CHAOS_DURATION_MS
    }

    /// Whether this node may boot. A retired identity is told so first, then a
    /// wiped one, then a parked one.
    pub fn boot_gate(&self, world: &StorageWorld, key: u64, retired: bool) -> (gate: BootGate)
        ensures
            gate == boot_gate(retired, world@.wiped.contains(key), world@.parked.contains(key)),
    {
        if retired {
            BootGate::Retired
        } else if world.is_wiped(key) {
            BootGate::Wiped
        } else if world.is_parked(key) {
            BootGate::Parked
        } else {
            BootGate::Boot
        }
    }

    /// What follows an exit, for a given delay.
    pub fn exit_step_with(&self, world: &StorageWorld, key: u64, exit: RunExit, delay_ms: u64) -> (step:
        ExitStep)
        ensures
            step == node_exit_step(exit, world@.parked.contains(key), delay_ms),
    {
        match exit {
            RunExit::SeamCrash => ExitStep::Restart { delay_ms },
            RunExit::Storage => if world.is_parked(key) {
                ExitStep::StayDown
            } else {
                ExitStep::Restart { delay_ms }
            },
            RunExit::Infra => ExitStep::Fail,
            RunExit::Clean => ExitStep::Done,
        }
    }

    /// What follows an exit. A restart's delay is drawn per crash, not per
    /// node, with a knob of its own for each way to crash.
    pub fn exit_step(&self, world: &StorageWorld, key: u64, exit: RunExit) -> (step: ExitStep)
        ensures
            exists|delay_ms: u64| #[trigger]
                restart_delay(delay_ms) && step == node_exit_step(
                    exit,
                    world@.parked.contains(key),
                    delay_ms,
                ),
    {
        let mut delay_ms: u64 = 0;
        match exit {
            RunExit::SeamCrash => {
                delay_ms =
                knob(
                    0,
                    MIN_RESTART_DELAY_MS,
                    MAX_RESTART_DELAY_MS + 1,
                    "process: seam crash restart delay",
                );
            },
            RunExit::Storage => if !world.is_parked(key) {
                delay_ms =
                knob(
                    0,
                    MIN_RESTART_DELAY_MS,
                    MAX_RESTART_DELAY_MS + 1,
                    "process: storage crash restart delay",
                );
            },
            _ => {},
        }
        assert(restart_delay(delay_ms));
        self.exit_step_with(world, key, exit, delay_ms)
    }
}

/// What follows a matchmaker's exit: its registry has no faults of its own, so
/// a storage exit takes the seam crash's path.
pub open spec fn matchmaker_exit_step(exit: RunExit, delay_ms: u64) -> ExitStep {
    match exit {
        RunExit::SeamCrash | RunExit::Storage => ExitStep::Restart { delay_ms },
        RunExit::Infra => ExitStep::Fail,
        RunExit::Clean => ExitStep::Done,
    }
}

impl MatchmakerProcess {
    pub fn chaotic() -> (process: MatchmakerProcess)
        ensures
            process == (MatchmakerProcess { perturb: true }),
    {
        MatchmakerProcess { perturb: true }
    }

    pub fn scripted() -> (process: MatchmakerProcess)
        ensures
            process == (MatchmakerProcess { perturb: false }),
    {
        MatchmakerProcess { perturb: false }
    }

    /// The id of the matchmaker this process runs, if that is its role.
    pub fn id(&self, role: Option<Role>) -> (id: Option<u64>)
        ensures
            id == match role {
                Some(Role::Matchmaker(id)) => Some(id),
                _ => None,
            },
    {
        match role {
            Some(Role::Matchmaker(id)) => Some(id),
            _ => None,
        }
    }

    /// Whether the registry's loss coin is tossed at this boot: only inside the
    /// chaos window, and never in a scripted case.
    pub fn loss_coin_live(&self, restart: bool, now_ms: u64) -> (live: bool)
        ensures
            live == (restart && self.perturb && now_ms < CHAOS_DURATION_MS),
    {
        restart && self.perturb && now_ms < CHAOS_DURATION_MS
    }

    /// What follows an exit, for a given delay.
    pub fn exit_step_with(&self, exit: RunExit, delay_ms: u64) -> (step: ExitStep)
        ensures
            step == matchmaker_exit_step(exit, delay_ms),
    {
        match exit {
            RunExit::SeamCrash | RunExit::Storage => ExitStep::Restart { delay_ms },
            RunExit::Infra => ExitStep::Fail,
            RunExit::Clean => ExitStep::Done,
        }
    }

    /// What follows an exit, the delay drawn for it.
    pub fn exit_step(&self, exit: RunExit) -> (step: ExitStep)
        ensures
            exists|delay_ms: u64| #[trigger]
                restart_delay(delay_ms) && step == matchmaker_exit_step(exit, delay_ms),
    {
        let mut delay_ms: u64 = 0;
        match exit {
            RunExit::SeamCrash | RunExit::Storage => {
                delay_ms =
                knob(
                    0,
                    MIN_RESTART_DELAY_MS,
                    MAX_RESTART_DELAY_MS + 1,
                    "process: matchmaker restart delay",
                );
            },
            _ => {},
        }
        assert(restart_delay(delay_ms));
        self.exit_step_with(exit, delay_ms)
    }
}

/// An acceptor of a scripted case, which the script holds, releases and
/// restarts.
#[derive(Clone, Copy, Debug, PartialEq, Eq, Structural)]
pub struct CorpusNodeProcess;

/// What a scripted node does between incarnations.
#[derive(Clone, Copy, Debug, PartialEq, Eq, Structural)]
pub enum HoldGate {
    /// It is parked for good.
    StayDown,
    /// It boots, at this restart epoch.
    Boot { epoch: u64 },
    /// The run is over.
    Stop,
    /// It is held: look again later.
    Wait,
}

impl CorpusNodeProcess {
    /// Whether a scripted node boots. A held node waits until it is released;
    /// one that is parked stays down whether held or not.
    pub fn hold_gate(&self, world: &StorageWorld, key: u64, shutdown: bool) -> (gate: HoldGate)
        ensures
            gate == hold_gate(world@, key, shutdown),
    {
        if world.is_parked(key) {
            HoldGate::StayDown
        } else if !world.is_held(key) {
            HoldGate::Boot { epoch: world.restart_epoch(key) }
        } else if shutdown {
            HoldGate::Stop
        } else {
            HoldGate::Wait
        }
    }

    /// Whether the script has asked for a restart since the node booted.
    pub fn restart_due(&self, world: &StorageWorld, key: u64, boot_epoch: u64) -> (due: bool)
        ensures
            due == (world@.epoch(key) > boot_epoch),
    {
        world.restart_epoch(key) > boot_epoch
    }

    /// What follows the end of an incarnation: its driver's exit, or none where
    /// the script dropped it. A scripted node restarts without delay.
    pub fn exit_step(&self, world: &StorageWorld, key: u64, exit: Option<RunExit>) -> (step:
        ExitStep)
        ensures
            step == match exit {
                Some(exit) => node_exit_step(exit, world@.parked.contains(key), 0),
                None => ExitStep::Restart { delay_ms: 0 },
            },
    {
        match exit {
            None => ExitStep::Restart { delay_ms: 0 },
            Some(RunExit::SeamCrash) => ExitStep::Restart { delay_ms: 0 },
            Some(RunExit::Storage) => if world.is_parked(key) {
                ExitStep::StayDown
            } else {
                ExitStep::Restart { delay_ms: 0 }
            },
            Some(RunExit::Infra) => ExitStep::Fail,
            Some(RunExit::Clean) => ExitStep::Done,
        }
    }
}

/// A node the script holds is dropped, stays down until it is released, and
/// then boots past the epoch it was dropped at.
pub proof fn law_held_node_waits_for_release(w: WorldView, key: u64, boot_epoch: u64)
    requires
        w.epoch(key) < u64::MAX,
        boot_epoch <= w.epoch(key),
    ensures
        ({
            let held = WorldView {
                held: w.held.insert(key),
                restart_epochs: w.restart_epochs.insert(key, (w.epoch(key) + 1) as u64),
                ..w
            };
            let released = WorldView { held: held.held.remove(key), ..held };
            &&& held.epoch(key) > boot_epoch
            &&& held.held.contains(key)
            &&& !released.held.contains(key)
            &&& released.epoch(key) == held.epoch(key)
        }),
{
}

/// A parked node stays down: it neither restarts on a storage exit nor passes
/// the boot gate again.
pub proof fn law_parked_node_stays_down(retired: bool, wiped: bool, delay_ms: u64)
    ensures
        node_exit_step(RunExit::Storage, true, delay_ms) == ExitStep::StayDown,
        boot_gate(retired, wiped, true) != BootGate::Boot,
{
}

/// A node whose disk was wiped never boots again, and is told that its disk was
/// wiped unless the operator retired it.
pub proof fn law_wiped_node_stays_down(w: WorldView, key: u64, node: u64, retired: bool)
    requires
        w.may_park(key),
    ensures
        ({
            let after = w.wipe(key, node);
            boot_gate(retired, after.wiped.contains(key), after.parked.contains(key)) == if retired {
                BootGate::Retired
            } else {
                BootGate::Wiped
            }
        }),
{
}

/// Every crash that does not park the node is followed by a restart, and
/// nothing else is.
pub proof fn law_crash_is_followed_by_restart(exit: RunExit, parked: bool, delay_ms: u64)
    ensures
        node_exit_step(exit, parked, delay_ms) is Restart <==> exit == RunExit::SeamCrash || (exit
            == RunExit::Storage && !parked),
{
}

} // verus!
