//! The shape of a run: every knob drawn for a node, fixed at that node's first
//! boot and reused by every later incarnation, and the run-level values fixed
//! by whoever asks first.
//!
//! A knob is a configuration of the process for the run, not a per-boot coin:
//! a node that booted with a four-slot peer queue must not come back with the
//! production default.
use crate::draws::knob;
use crate::faults::{WritePathRates, knob_value};
use crate::ordered::OrdMap;
use crate::quorum::{QuorumPolicy, grid_layouts, layouts_below};
use vstd::prelude::*;

verus! {

/// The wall-clock floor, in milliseconds, of every driver timeout that races
/// the network: one round trip over a cross-datacenter link plus one delivery
/// batch. Below it a candidate abandons its own round before its promises
/// return.
pub const ROUND_TRIP_FLOOR_MS: u64 = 250;

/// The default percent chance that a restart finds its storage lost for good.
pub const DEFAULT_LOSS_PCT: u64 = 35;

/// The floor of the loss knobs.
pub const MIN_LOSS_PCT: u64 = 5;

/// The ceiling of the loss knobs.
pub const MAX_LOSS_PCT: u64 = 75;

/// The smallest acceptor configuration a matchmaker seed puts in force.
pub const MIN_BOOTSTRAP: usize = 3;

/// The smallest matchmaker set that can lose one member and keep a quorum.
pub const MATCHMAKER_LOSS_FLOOR: usize = 3;

/// The driver's transport and timing tunables: milliseconds, ticks and queue
/// capacities.
#[derive(Clone, Copy, Debug, PartialEq, Eq, Structural)]
pub struct Tunables {
    pub tick_interval_ms: u64,
    pub election_timeout_base: u64,
    pub keep_alive_interval_ms: u64,
    pub keep_alive_timeout_ms: u64,
    pub connection_timeout_ms: u64,
    pub delivery_timeout_ms: u64,
    pub read_retry_ticks: u64,
    pub snapshot_queue_capacity: u64,
    pub client_inbox_capacity: u64,
    pub peer_inbox_capacity: u64,
    pub peer_queue_capacity: u64,
    pub delivery_batch: u64,
    pub match_resend_ticks: u64,
    pub gc_resend_ticks: u64,
    pub reconfigurer_resend_ticks: u64,
    pub reconfigure_timeout_elections: u64,
    pub reconfigure_backoff_max_ticks: u64,
}

/// Everything the swarm fixes about one node for one seed.
#[derive(Clone, Copy, Debug, PartialEq, Eq, Structural)]
pub struct NodeShape {
    pub tunables: Tunables,
    /// A multiplier on the crash probability while writes are in flight.
    pub seam_crash_bias: u64,
    pub write_rates: WritePathRates,
    /// Percent chance that a restart comes back on an empty disk.
    pub wipe_pct: u64,
    /// Percent chance that a restarted matchmaker's registry is unusable.
    pub matchmaker_loss_pct: u64,
}

/// How many ticks make up the round-trip floor, rounded up.
pub open spec fn floor_ticks(tick_ms: u64) -> u64 {
    ((ROUND_TRIP_FLOOR_MS + tick_ms - 1) / tick_ms as int) as u64
}

pub open spec fn at_least(value: u64, floor: u64) -> u64 {
    if value >= floor {
        value
    } else {
        floor
    }
}

/// The lesser of a value and a ceiling that is not negative.
pub open spec fn at_most(value: u64, ceiling: int) -> u64 {
    if value <= ceiling {
        value
    } else {
        ceiling as u64
    }
}

impl Tunables {
    /// The tunables with their tick-counted timeouts raised to the round-trip
    /// floor.
    pub open spec fn raised(self) -> Tunables {
        let floor = floor_ticks(self.tick_interval_ms);
        Tunables {
            election_timeout_base: at_least(self.election_timeout_base, floor),
            read_retry_ticks: at_least(self.read_retry_ticks, floor),
            ..self
        }
    }

    /// How many ticks a handover may stall before it is abandoned.
    pub open spec fn stall_budget(self) -> int {
        self.election_timeout_base * self.reconfigure_timeout_elections
    }

    /// The tunables with the handover's re-send cadence held inside its stall
    /// budget: past it, a phase would be abandoned before it is ever re-sent.
    pub open spec fn capped(self) -> Tunables {
        Tunables {
            reconfigurer_resend_ticks: at_most(self.reconfigurer_resend_ticks, self.stall_budget()),
            ..self
        }
    }

    /// Every knob is its default or inside its range, the tick-counted timeouts
    /// raised to the round-trip floor and the handover's cadence held inside
    /// its stall budget.
    pub open spec fn drawn_from(self, defaults: Tunables) -> bool {
        &&& knob_value(self.tick_interval_ms, 50, 10, 201)
        &&& knob_value(self.keep_alive_interval_ms, 2000, ROUND_TRIP_FLOOR_MS, 5001)
        &&& knob_value(self.keep_alive_timeout_ms, 1000, ROUND_TRIP_FLOOR_MS, 3001)
        &&& knob_value(self.connection_timeout_ms, 1000, ROUND_TRIP_FLOOR_MS, 3001)
        &&& knob_value(self.delivery_timeout_ms, 1000, ROUND_TRIP_FLOOR_MS, 3001)
        &&& knob_value(self.snapshot_queue_capacity, 4, 1, 9)
        &&& knob_value(self.client_inbox_capacity, 256, 1, 17)
        &&& knob_value(self.peer_inbox_capacity, 1024, 1, 65)
        &&& knob_value(self.peer_queue_capacity, defaults.peer_queue_capacity, 4, 17)
        &&& knob_value(self.delivery_batch, defaults.delivery_batch, 8, 33)
        &&& knob_value(self.match_resend_ticks, 5, 1, 41)
        &&& knob_value(self.gc_resend_ticks, 5, 1, 41)
        &&& knob_value(self.reconfigure_timeout_elections, 4, 1, 17)
        &&& knob_value(self.reconfigure_backoff_max_ticks, 10, 1, 41)
        &&& exists|base: u64| #[trigger]
            knob_value(base, 5, 2, 13) && self.election_timeout_base == at_least(
                base,
                floor_ticks(self.tick_interval_ms),
            )
        &&& exists|retry: u64| #[trigger]
            knob_value(retry, 10, 1, 41) && self.read_retry_ticks == at_least(
                retry,
                floor_ticks(self.tick_interval_ms),
            )
        &&& exists|cadence: u64| #[trigger]
            knob_value(cadence, 5, 1, 11) && self.reconfigurer_resend_ticks == at_most(
                cadence,
                self.stall_budget(),
            )
        &&& self.reconfigurer_resend_ticks <= self.election_timeout_base
            * self.reconfigure_timeout_elections
    }

    /// Raise the tick-counted timeouts to the round-trip floor.
    pub fn with_floor(self) -> (raised: Tunables)
        requires
            self.tick_interval_ms > 0,
        ensures
            raised == self.raised(),
    {
        let floor = ticks_in_floor(self.tick_interval_ms);
        Tunables {
            election_timeout_base: if self.election_timeout_base >= floor {
                self.election_timeout_base
            } else {
                floor
            },
            read_retry_ticks: if self.read_retry_ticks >= floor {
                self.read_retry_ticks
            } else {
                floor
            },
            ..self
        }
    }

    /// Hold the handover's re-send cadence inside its stall budget.
    pub fn with_cap(self) -> (capped: Tunables)
        ensures
            capped == self.capped(),
            capped.reconfigurer_resend_ticks <= capped.election_timeout_base
                * capped.reconfigure_timeout_elections,
    {
        match self.election_timeout_base.checked_mul(self.reconfigure_timeout_elections) {
            Some(budget) if budget < self.reconfigurer_resend_ticks => Tunables {
                reconfigurer_resend_ticks: budget,
                ..self
            },
            _ => self,
        }
    }

    /// Draw one node's tunables.
    pub fn draw(defaults: Tunables) -> (tunables: Tunables)
        ensures
            tunables.drawn_from(defaults),
    {
        let raw = Tunables {
            tick_interval_ms: knob(50, 10, 201, "shape: tick interval"),
            election_timeout_base: knob(5, 2, 13, "shape: election timeout base"),
            keep_alive_interval_ms: knob(
                2000,
                ROUND_TRIP_FLOOR_MS,
                5001,
                "shape: keep-alive interval",
            ),
            keep_alive_timeout_ms: knob(
                1000,
                ROUND_TRIP_FLOOR_MS,
                3001,
                "shape: keep-alive timeout",
            ),
            connection_timeout_ms: knob(
                1000,
                ROUND_TRIP_FLOOR_MS,
                3001,
                "shape: connection timeout",
            ),
            delivery_timeout_ms: knob(1000, ROUND_TRIP_FLOOR_MS, 3001, "shape: delivery timeout"),
            read_retry_ticks: knob(10, 1, 41, "shape: read retry cadence"),
            snapshot_queue_capacity: knob(4, 1, 9, "shape: snapshot queue capacity"),
            client_inbox_capacity: knob(256, 1, 17, "shape: client inbox capacity"),
            peer_inbox_capacity: knob(1024, 1, 65, "shape: peer inbox capacity"),
            peer_queue_capacity: knob(
                defaults.peer_queue_capacity,
                4,
                17,
                "shape: peer queue capacity",
            ),
            delivery_batch: knob(defaults.delivery_batch, 8, 33, "shape: delivery batch"),
            match_resend_ticks: knob(5, 1, 41, "shape: matchmaking re-send cadence"),
            gc_resend_ticks: knob(5, 1, 41, "shape: collection re-send cadence"),
            reconfigurer_resend_ticks: knob(5, 1, 11, "shape: handover re-send cadence"),
            reconfigure_timeout_elections: knob(4, 1, 17, "shape: handover stall budget"),
            reconfigure_backoff_max_ticks: knob(10, 1, 41, "shape: decree backoff ceiling"),
        };
        assert(knob_value(raw.election_timeout_base, 5, 2, 13));
        assert(knob_value(raw.read_retry_ticks, 10, 1, 41));
        assert(knob_value(raw.reconfigurer_resend_ticks, 5, 1, 11));
        raw.with_floor().with_cap()
    }
}

fn ticks_in_floor(tick_ms: u64) -> (ticks: u64)
    requires
        tick_ms > 0,
    ensures
        ticks == floor_ticks(tick_ms),
{
    proof {
        lemma_ceiling(ROUND_TRIP_FLOOR_MS as int, tick_ms as int);
    }
    let whole = ROUND_TRIP_FLOOR_MS / tick_ms;
    if ROUND_TRIP_FLOOR_MS % tick_ms == 0 {
        whole
    } else {
        whole + 1
    }
}

proof fn lemma_ceiling(a: int, b: int)
    requires
        a >= 0,
        b > 0,
    ensures
        a % b == 0 ==> (a + b - 1) / b == a / b,
        a % b != 0 ==> (a + b - 1) / b == a / b + 1,
        (a + b - 1) / b * b >= a,
        0 <= a / b <= a,
{
    let q = a / b;
    let r = a % b;
    vstd::arithmetic::div_mod::lemma_fundamental_div_mod(a, b);
    vstd::arithmetic::div_mod::lemma_div_pos_is_pos(a, b);
    if r == 0 {
        vstd::arithmetic::div_mod::lemma_fundamental_div_mod_converse(a + b - 1, b, q, b - 1);
    } else {
        assert(a + b - 1 == b * (q + 1) + (r - 1)) by (nonlinear_arith)
            requires
                a == b * q + r,
        ;
        vstd::arithmetic::div_mod::lemma_fundamental_div_mod_converse(a + b - 1, b, q + 1, r - 1);
    }
    assert(q <= a) by (nonlinear_arith)
        requires
            a == b * q + r,
            b > 0,
            q >= 0,
            r >= 0,
    ;
    assert((a + b - 1) / b * b >= a) by (nonlinear_arith)
        requires
            a == b * q + r,
            0 <= r < b,
            r == 0 ==> (a + b - 1) / b == q,
            r != 0 ==> (a + b - 1) / b == q + 1,
    ;
}

/// The round-trip floor holds on the wall clock: however fast the tick, a
/// raised timeout spans at least one round trip.
pub proof fn law_timeouts_span_a_round_trip(t: Tunables)
    requires
        t.tick_interval_ms > 0,
    ensures
        t.raised().election_timeout_base * t.tick_interval_ms >= ROUND_TRIP_FLOOR_MS,
        t.raised().read_retry_ticks * t.tick_interval_ms >= ROUND_TRIP_FLOOR_MS,
{
    let tick = t.tick_interval_ms as int;
    let floor = floor_ticks(t.tick_interval_ms) as int;
    lemma_ceiling(ROUND_TRIP_FLOOR_MS as int, tick);
    assert(floor * tick >= ROUND_TRIP_FLOOR_MS);
    let base = t.raised().election_timeout_base as int;
    let retry = t.raised().read_retry_ticks as int;
    assert(base * tick >= floor * tick) by (nonlinear_arith)
        requires
            base >= floor,
            tick > 0,
    ;
    assert(retry * tick >= floor * tick) by (nonlinear_arith)
        requires
            retry >= floor,
            tick > 0,
    ;
}

impl NodeShape {
    /// The production shape: every knob at its default.
    pub open spec fn standard(defaults: Tunables) -> NodeShape {
        NodeShape {
            tunables: defaults,
            seam_crash_bias: 1,
            write_rates: WritePathRates::standard(),
            wipe_pct: DEFAULT_LOSS_PCT,
            matchmaker_loss_pct: DEFAULT_LOSS_PCT,
        }
    }

    /// Every knob is its default or inside its range.
    pub open spec fn drawn_from(self, defaults: Tunables) -> bool {
        &&& self.tunables.drawn_from(defaults)
        &&& knob_value(self.seam_crash_bias, 1, 4, 11)
        &&& self.write_rates.in_range()
        &&& MIN_LOSS_PCT <= self.wipe_pct <= MAX_LOSS_PCT
        &&& MIN_LOSS_PCT <= self.matchmaker_loss_pct <= MAX_LOSS_PCT
    }

    pub fn production(defaults: Tunables) -> (shape: NodeShape)
        ensures
            shape == NodeShape::standard(defaults),
    {
        NodeShape {
            tunables: defaults,
            seam_crash_bias: 1,
            write_rates: WritePathRates::defaults(),
            wipe_pct: DEFAULT_LOSS_PCT,
            matchmaker_loss_pct: DEFAULT_LOSS_PCT,
        }
    }

    /// Draw one perturbing node's shape.
    pub fn draw(defaults: Tunables) -> (shape: NodeShape)
        ensures
            shape.drawn_from(defaults),
    {
        let tunables = Tunables::draw(defaults);
        NodeShape {
            tunables,
            seam_crash_bias: knob(1, 4, 11, "shape: seam crash bias"),
            write_rates: WritePathRates::draw(),
            wipe_pct: knob(
                DEFAULT_LOSS_PCT,
                MIN_LOSS_PCT,
                MAX_LOSS_PCT + 1,
                "shape: disk wipe rate",
            ),
            matchmaker_loss_pct: knob(
                DEFAULT_LOSS_PCT,
                MIN_LOSS_PCT,
                MAX_LOSS_PCT + 1,
                "shape: registry loss rate",
            ),
        }
    }
}

/// One boot: the node's shape, and which incarnation this boot is.
#[derive(Clone, Copy, Debug, PartialEq, Eq, Structural)]
pub struct Incarnation {
    pub shape: NodeShape,
    pub number: u64,
}

impl Incarnation {
    /// Whether this boot follows a process-level kill of the same node.
    pub fn is_restart(&self) -> (restart: bool)
        ensures
            restart == (self.number > 1),
    {
        self.number > 1
    }
}

/// A node's entry: the shape its first boot fixed, and its boots so far.
#[derive(Clone, Copy, Debug, PartialEq, Eq, Structural)]
pub struct ShapeEntry {
    pub shape: NodeShape,
    pub incarnations: u64,
}

impl View for ShapeEntry {
    type V = ShapeEntry;

    open spec fn view(&self) -> ShapeEntry {
        *self
    }
}

/// The run's registry of shapes.
pub struct Registry {
    pub lanes: Option<u8>,
    pub quorum: Option<QuorumPolicy>,
    pub bootstrap: Option<Vec<u64>>,
    pub matchmaker_bootstrap: Option<Vec<u64>>,
    pub nodes: OrdMap<u64, ShapeEntry>,
}

pub struct RegistryView {
    pub lanes: Option<u8>,
    pub quorum: Option<QuorumPolicy>,
    pub bootstrap: Option<Seq<u64>>,
    pub matchmaker_bootstrap: Option<Seq<u64>>,
    pub nodes: Map<u64, ShapeEntry>,
}

pub open spec fn ranks_view(ranks: Option<Vec<u64>>) -> Option<Seq<u64>> {
    match ranks {
        Some(ranks) => Some(ranks@),
        None => None,
    }
}

impl View for Registry {
    type V = RegistryView;

    open spec fn view(&self) -> RegistryView {
        RegistryView {
            lanes: self.lanes,
            quorum: self.quorum,
            bootstrap: ranks_view(self.bootstrap),
            matchmaker_bootstrap: ranks_view(self.matchmaker_bootstrap),
            nodes: self.nodes@,
        }
    }
}

/// The ranks `0..n`.
pub open spec fn all_ranks(n: nat) -> Seq<u64> {
    Seq::new(n, |i: int| i as u64)
}

/// `rank` is among the `size` ranks that follow `rotation`, wrapping around.
pub open spec fn in_window(pool: nat, size: nat, rotation: nat, rank: int) -> bool {
    if rank >= rotation {
        rank - rotation < size
    } else {
        rank + pool - rotation < size
    }
}

/// A subset of the pool: the `size` ranks from `rotation` on, in order.
pub open spec fn subset_ranks(pool: nat, size: nat, rotation: nat) -> Seq<u64> {
    all_ranks(pool).filter(|rank: u64| in_window(pool, size, rotation, rank as int))
}

/// What a perturbing draw of bootstrap ranks may come to: the whole pool, or a
/// subset of at least `floor`.
pub open spec fn drawn_ranks(ranks: Seq<u64>, pool: nat, floor: nat) -> bool {
    ranks == all_ranks(pool) || exists|size: nat, rotation: nat|
        floor <= size < pool && rotation < pool && ranks == #[trigger] subset_ranks(
            pool,
            size,
            rotation,
        )
}

/// The policy two knobs select on a pool: a split if `q2` is off the majority,
/// else the `pick`-th grid layout, if there is one.
pub open spec fn selected_policy(pool: nat, q2: nat, pick: nat) -> QuorumPolicy {
    let layouts = layouts_below(pool, pool as int);
    if q2 != pool / 2 + 1 {
        QuorumPolicy::Flexible { q2: q2 as usize }
    } else if 1 <= pick <= layouts.len() {
        QuorumPolicy::Grid { rows: layouts[pick - 1].0, cols: layouts[pick - 1].1 }
    } else {
        QuorumPolicy::Majority
    }
}

/// What a perturbing draw of the policy may come to.
pub open spec fn drawn_policy(policy: QuorumPolicy, pool: nat) -> bool {
    exists|q2: nat, pick: nat|
        (q2 == pool / 2 + 1 || 1 <= q2 < pool / 2 + 1) && policy == #[trigger] selected_policy(
            pool,
            q2,
            pick,
        )
}

impl RegistryView {
    /// `lanes` is what a run with this registry may be told.
    pub open spec fn gives_lanes(self, default_lanes: u8, perturb: bool, lanes: u8) -> bool {
        match self.lanes {
            Some(fixed) => lanes == fixed,
            None => if perturb {
                lanes == default_lanes || 1 <= lanes < 129
            } else {
                lanes == default_lanes
            },
        }
    }

    pub open spec fn gives_policy(self, pool: nat, perturb: bool, policy: QuorumPolicy) -> bool {
        match self.quorum {
            Some(fixed) => policy == fixed,
            None => if perturb && pool >= 2 {
                drawn_policy(policy, pool)
            } else {
                policy == QuorumPolicy::Majority
            },
        }
    }

    pub open spec fn gives_bootstrap(
        self,
        pool: nat,
        has_matchmakers: bool,
        perturb: bool,
        ranks: Seq<u64>,
    ) -> bool {
        match self.bootstrap {
            Some(fixed) => ranks == fixed,
            None => if perturb && has_matchmakers && pool > MIN_BOOTSTRAP {
                drawn_ranks(ranks, pool, MIN_BOOTSTRAP as nat)
            } else {
                ranks == all_ranks(pool)
            },
        }
    }

    pub open spec fn gives_matchmakers(self, pool: nat, perturb: bool, ranks: Seq<u64>) -> bool {
        match self.matchmaker_bootstrap {
            Some(fixed) => ranks == fixed,
            None => if perturb && pool >= 2 {
                drawn_ranks(ranks, pool, 1)
            } else {
                ranks == all_ranks(pool)
            },
        }
    }

    /// `incarnation` is what a boot of `key` may be given.
    pub open spec fn gives_incarnation(
        self,
        key: u64,
        perturb: bool,
        defaults: Tunables,
        incarnation: Incarnation,
    ) -> bool {
        if self.nodes.contains_key(key) {
            let entry = self.nodes[key];
            incarnation.shape == entry.shape && incarnation.number == entry.incarnations + 1
        } else {
            &&& incarnation.number == 1
            &&& perturb ==> incarnation.shape.drawn_from(defaults)
            &&& !perturb ==> incarnation.shape == NodeShape::standard(defaults)
        }
    }
}

/// The ranks `0..n`.
pub fn first_ranks(n: usize) -> (ranks: Vec<u64>)
    ensures
        ranks@ == all_ranks(n as nat),
{
    let mut ranks: Vec<u64> = Vec::new();
    let mut i: usize = 0;
    while i < n
        invariant
            i <= n,
            ranks@ == all_ranks(n as nat).take(i as int),
        decreases n - i,
    {
        ranks.push(i as u64);
        i = i + 1;
        assert(ranks@ =~= all_ranks(n as nat).take(i as int));
    }
    assert(ranks@ =~= all_ranks(n as nat));
    ranks
}

/// The `size` ranks from `rotation` on, wrapping around, in order.
pub fn window_ranks(pool: usize, size: usize, rotation: usize) -> (ranks: Vec<u64>)
    requires
        size < pool,
        rotation < pool,
    ensures
        ranks@ == subset_ranks(pool as nat, size as nat, rotation as nat),
{
    let ghost all = all_ranks(pool as nat);
    let ghost pred = |rank: u64| in_window(pool as nat, size as nat, rotation as nat, rank as int);
    let mut ranks: Vec<u64> = Vec::new();
    let mut i: usize = 0;
    proof {
        reveal(Seq::filter);
        assert(all.take(0).filter(pred) =~= ranks@);
    }
    while i < pool
        invariant
            i <= pool,
            size < pool,
            rotation < pool,
            all == all_ranks(pool as nat),
            pred == (|rank: u64|
                in_window(pool as nat, size as nat, rotation as nat, rank as int)),
            ranks@ == all.take(i as int).filter(pred),
        decreases pool - i,
    {
        proof {
            reveal(Seq::filter);
            assert(all.take(i + 1).drop_last() =~= all.take(i as int));
            assert(all.take(i + 1).last() == i as u64);
        }
        let inside = if i >= rotation {
            i - rotation < size
        } else {
            i + (pool - rotation) < size
        };
        if inside {
            ranks.push(i as u64);
        }
        i = i + 1;
    }
    assert(all.take(i as int) =~= all);
    ranks
}

fn copy_ranks(ranks: &Vec<u64>) -> (copy: Vec<u64>)
    ensures
        copy@ == ranks@,
{
    let mut copy: Vec<u64> = Vec::new();
    let mut i: usize = 0;
    while i < ranks.len()
        invariant
            i <= ranks@.len(),
            copy@ == ranks@.take(i as int),
        decreases ranks@.len() - i,
    {
        copy.push(ranks[i]);
        i = i + 1;
        assert(copy@ =~= ranks@.take(i as int));
    }
    assert(copy@ =~= ranks@);
    copy
}

/// Draw a subset of a pool of at least `floor` ranks, or the whole pool.
fn draw_ranks(pool: usize, floor: usize, sizes: &'static str, rotations: &'static str) -> (ranks:
    Vec<u64>)
    requires
        1 <= floor < pool,
        pool <= u64::MAX,
    ensures
        drawn_ranks(ranks@, pool as nat, floor as nat),
{
    let size = knob(pool as u64, floor as u64, pool as u64, sizes) as usize;
    if size == pool {
        return first_ranks(pool);
    }
    let rotation = knob(0, 1, pool as u64, rotations) as usize;
    window_ranks(pool, size, rotation)
}

/// The policy two knobs select.
pub fn select_policy(pool: usize, q2: usize, pick: usize) -> (policy: QuorumPolicy)
    ensures
        policy == selected_policy(pool as nat, q2 as nat, pick as nat),
{
    if q2 != pool / 2 + 1 {
        return QuorumPolicy::Flexible { q2 };
    }
    let layouts = grid_layouts(pool);
    if pick >= 1 && pick <= layouts.len() {
        let (rows, cols) = layouts[pick - 1];
        QuorumPolicy::Grid { rows, cols }
    } else {
        QuorumPolicy::Majority
    }
}

fn draw_policy(pool: usize) -> (policy: QuorumPolicy)
    requires
        2 <= pool < u64::MAX,
    ensures
        drawn_policy(policy, pool as nat),
{
    let majority = pool / 2 + 1;
    let q2 = knob(majority as u64, 1, majority as u64, "shape: accept quorum size") as usize;
    let mut pick: usize = 0;
    if q2 == majority {
        let layouts = grid_layouts(pool);
        if layouts.len() > 0 {
            proof {
                crate::quorum::law_grid_layouts_tile(pool as nat, pool as int, 0);
                lemma_layouts_fewer(pool as nat, pool as int);
            }
            pick = knob(0, 1, layouts.len() as u64 + 1, "shape: grid layout") as usize;
        }
    }
    let policy = select_policy(pool, q2, pick);
    assert(policy == selected_policy(pool as nat, q2 as nat, pick as nat));
    policy
}

proof fn lemma_layouts_fewer(n: nat, limit: int)
    ensures
        layouts_below(n, limit).len() <= if limit >= 0 {
            limit
        } else {
            0
        },
    decreases limit,
{
    if limit > 2 {
        lemma_layouts_fewer(n, limit - 1);
    }
}

impl Registry {
    pub fn new() -> (registry: Registry)
        ensures
            registry@ == (RegistryView {
                lanes: None,
                quorum: None,
                bootstrap: None,
                matchmaker_bootstrap: None,
                nodes: Map::empty(),
            }),
    {
        Registry {
            lanes: None,
            quorum: None,
            bootstrap: None,
            matchmaker_bootstrap: None,
            nodes: OrdMap::new(),
        }
    }

    /// Boot a node once more: the shape its first incarnation fixed, drawing it
    /// now if this is the first. `perturb` selects the drawn shape over the
    /// production one.
    pub fn boot(&mut self, key: u64, perturb: bool, defaults: Tunables) -> (incarnation: Incarnation)
        requires
            old(self)@.nodes.contains_key(key) ==> old(self)@.nodes[key].incarnations < u64::MAX,
        ensures
            old(self)@.gives_incarnation(key, perturb, defaults, incarnation),
            final(self)@ == (RegistryView {
                nodes: old(self)@.nodes.insert(
                    key,
                    ShapeEntry {
                        shape: incarnation.shape,
                        incarnations: incarnation.number,
                    },
                ),
                ..old(self)@
            }),
    {
        let entry = match self.nodes.get(key) {
            Some(entry) => ShapeEntry {
                shape: entry.shape,
                incarnations: entry.incarnations + 1,
            },
            None => ShapeEntry {
                shape: if perturb {
                    NodeShape::draw(defaults)
                } else {
                    NodeShape::production(defaults)
                },
                incarnations: 1,
            },
        };
        self.nodes.insert(key, entry);
        Incarnation { shape: entry.shape, number: entry.incarnations }
    }

    /// The run's digest-lane count, fixed by the first caller: a perturbing one
    /// draws it, any other takes the default.
    pub fn lane_count(&mut self, default_lanes: u8, perturb: bool) -> (lanes: u8)
        ensures
            old(self)@.gives_lanes(default_lanes, perturb, lanes),
            final(self)@ == (RegistryView { lanes: Some(lanes), ..old(self)@ }),
    {
        let lanes: u8 = match self.lanes {
            Some(lanes) => lanes,
            None => if perturb {
                knob(default_lanes as u64, 1, 129, "shape: digest lanes") as u8
            } else {
                default_lanes
            },
        };
        self.lanes = Some(lanes);
        lanes
    }

    /// The run's quorum policy, fixed by the first caller. Only a perturbing
    /// caller on a pool of two or more draws; the default is the majority.
    pub fn quorum_policy(&mut self, pool: usize, perturb: bool) -> (policy: QuorumPolicy)
        requires
            pool < u64::MAX,
        ensures
            old(self)@.gives_policy(pool as nat, perturb, policy),
            final(self)@ == (RegistryView { quorum: Some(policy), ..old(self)@ }),
    {
        let policy = match self.quorum {
            Some(policy) => policy,
            None => if perturb && pool >= 2 {
                draw_policy(pool)
            } else {
                QuorumPolicy::Majority
            },
        };
        self.quorum = Some(policy);
        policy
    }

    /// The run's bootstrap acceptor ranks, fixed by the first caller. Only a
    /// perturbing matchmaker run on a pool above the floor draws a subset.
    pub fn bootstrap_ranks(&mut self, pool: usize, has_matchmakers: bool, perturb: bool) -> (ranks:
        Vec<u64>)
        requires
            pool <= u64::MAX,
        ensures
            old(self)@.gives_bootstrap(pool as nat, has_matchmakers, perturb, ranks@),
            final(self)@ == (RegistryView { bootstrap: Some(ranks@), ..old(self)@ }),
    {
        let ranks = match &self.bootstrap {
            Some(ranks) => copy_ranks(ranks),
            None => if perturb && has_matchmakers && pool > MIN_BOOTSTRAP {
                draw_ranks(
                    pool,
                    MIN_BOOTSTRAP,
                    "shape: bootstrap size",
                    "shape: bootstrap rotation",
                )
            } else {
                first_ranks(pool)
            },
        };
        self.bootstrap = Some(copy_ranks(&ranks));
        ranks
    }

    /// A scripted case's bootstrap ranks: `0..n`, unless already fixed.
    pub fn fixed_bootstrap_ranks(&mut self, n: usize) -> (ranks: Vec<u64>)
        ensures
            ranks@ == match old(self)@.bootstrap {
                Some(fixed) => fixed,
                None => all_ranks(n as nat),
            },
            final(self)@ == (RegistryView { bootstrap: Some(ranks@), ..old(self)@ }),
    {
        let ranks = match &self.bootstrap {
            Some(ranks) => copy_ranks(ranks),
            None => first_ranks(n),
        };
        self.bootstrap = Some(copy_ranks(&ranks));
        ranks
    }

    /// The run's bootstrap matchmaker ranks, fixed by the first caller. Only a
    /// perturbing run with two or more matchmakers draws a subset.
    pub fn matchmaker_bootstrap_ranks(&mut self, pool: usize, perturb: bool) -> (ranks: Vec<u64>)
        requires
            pool <= u64::MAX,
        ensures
            old(self)@.gives_matchmakers(pool as nat, perturb, ranks@),
            final(self)@ == (RegistryView { matchmaker_bootstrap: Some(ranks@), ..old(self)@ }),
    {
        let ranks = match &self.matchmaker_bootstrap {
            Some(ranks) => copy_ranks(ranks),
            None => if perturb && pool >= 2 {
                draw_ranks(
                    pool,
                    1,
                    "shape: matchmaker bootstrap size",
                    "shape: matchmaker bootstrap rotation",
                )
            } else {
                first_ranks(pool)
            },
        };
        self.matchmaker_bootstrap = Some(copy_ranks(&ranks));
        ranks
    }
}

/// The size the storage world's copy budget is computed over: the whole pool on
/// a plain deployment, the smallest configuration it may shrink to on a
/// matchmaker one.
pub fn config_floor(pool: usize, has_matchmakers: bool) -> (floor: usize)
    ensures
        floor == if has_matchmakers && pool > MIN_BOOTSTRAP {
            MIN_BOOTSTRAP
        } else {
            pool
        },
{
    if has_matchmakers && pool > MIN_BOOTSTRAP {
        MIN_BOOTSTRAP
    } else {
        pool
    }
}

/// The smallest matchmaker set a run may put in force.
pub fn matchmaker_floor(bootstrap: usize) -> (floor: usize)
    ensures
        floor == if bootstrap > MATCHMAKER_LOSS_FLOOR {
            MATCHMAKER_LOSS_FLOOR
        } else {
            bootstrap
        },
{
    if bootstrap > MATCHMAKER_LOSS_FLOOR {
        MATCHMAKER_LOSS_FLOOR
    } else {
        bootstrap
    }
}

/// A subset draw names exactly `size` ranks of the pool.
pub proof fn law_subset_has_its_size(pool: nat, size: nat, rotation: nat)
    requires
        size <= pool,
        rotation < pool,
        pool <= u64::MAX,
    ensures
        subset_ranks(pool, size, rotation).len() == size,
{
    lemma_window_count(pool, size, rotation, pool);
    assert(all_ranks(pool).take(pool as int) =~= all_ranks(pool));
}

/// How many of the first `n` ranks lie in the window: the low stretch that
/// wrapped around, then the stretch from the rotation on.
proof fn lemma_window_count(pool: nat, size: nat, rotation: nat, n: nat)
    requires
        size <= pool,
        rotation < pool,
        n <= pool,
        pool <= u64::MAX,
    ensures
        ({
            let wrapped = if rotation + size > pool {
                rotation + size - pool
            } else {
                0int
            };
            let low = if n < wrapped {
                n as int
            } else {
                wrapped as int
            };
            let top = if rotation + size > pool {
                pool as int
            } else {
                (rotation + size) as int
            };
            let high = if n <= rotation {
                0int
            } else if n < top {
                n - rotation
            } else {
                top - rotation
            };
            all_ranks(pool).take(n as int).filter(
                |rank: u64| in_window(pool, size, rotation, rank as int),
            ).len() == low + high
        }),
    decreases n,
{
    reveal(Seq::filter);
    let pred = |rank: u64| in_window(pool, size, rotation, rank as int);
    let all = all_ranks(pool);
    if n > 0 {
        lemma_window_count(pool, size, rotation, (n - 1) as nat);
        assert(all.take(n as int).drop_last() =~= all.take(n - 1));
        assert(all.take(n as int).last() == (n - 1) as u64);
        assert(all.take(n as int).filter(pred).len() == all.take(n - 1).filter(pred).len() + if pred(
            (n - 1) as u64,
        ) {
            1int
        } else {
            0
        });
    } else {
        assert(all.take(0) =~= Seq::<u64>::empty());
    }
}

} // verus!
