//! What a run's drawn sizes keep to: timeouts, cadences, bootstrap subsets, and
//! the quorum systems a policy comes to at each size.
use crate::quorum::{
    QuorumPolicy, law_grid_layouts_complete, law_grid_layouts_tile, layouts_below,
    tiles,
};
use crate::shape::{
    Incarnation, NodeShape, ROUND_TRIP_FLOOR_MS, RegistryView, ShapeEntry, Tunables, all_ranks,
    drawn_ranks, floor_ticks, in_window, law_subset_has_its_size, selected_policy, subset_ranks,
};
use vstd::prelude::*;

verus! {

/// A timeout is raised only as far as a round trip needs: one that spans it
/// stays, one that does not takes the fewest ticks that do. Nothing else is
/// touched.
pub proof fn law_timeouts_are_raised_no_further(t: Tunables)
    requires
        t.tick_interval_ms > 0,
    ensures
        ({
            let r = t.raised();
            let floor = floor_ticks(t.tick_interval_ms);
            &&& t.election_timeout_base >= floor ==> r.election_timeout_base
                == t.election_timeout_base
            &&& t.election_timeout_base < floor ==> r.election_timeout_base == floor
            &&& t.read_retry_ticks >= floor ==> r.read_retry_ticks == t.read_retry_ticks
            &&& t.read_retry_ticks < floor ==> r.read_retry_ticks == floor
            &&& (floor - 1) * t.tick_interval_ms < ROUND_TRIP_FLOOR_MS
            &&& r == Tunables {
                election_timeout_base: r.election_timeout_base,
                read_retry_ticks: r.read_retry_ticks,
                ..t
            }
        }),
{
    let tick = t.tick_interval_ms as int;
    let a = ROUND_TRIP_FLOOR_MS + tick - 1;
    vstd::arithmetic::div_mod::lemma_fundamental_div_mod(a, tick);
    vstd::arithmetic::div_mod::lemma_mod_bound(a, tick);
    let q = a / tick;
    let r = a % tick;
    assert(tick * q + r == a);
    assert(q <= a) by (nonlinear_arith)
        requires
            tick * q + r == a,
            tick >= 1,
            r >= 0,
            q >= 0,
    ;
    assert(q >= 0) by (nonlinear_arith)
        requires
            q == a / tick,
            a >= 0,
            tick >= 1,
    ;
    assert((q - 1) * tick < ROUND_TRIP_FLOOR_MS) by (nonlinear_arith)
        requires
            tick * q + r == a,
            r >= 0,
            a == ROUND_TRIP_FLOOR_MS + tick - 1,
            tick >= 1,
    ;
    assert(q <= ROUND_TRIP_FLOOR_MS) by (nonlinear_arith)
        requires
            (q - 1) * tick < ROUND_TRIP_FLOOR_MS,
            tick >= 1,
            q >= 0,
            ROUND_TRIP_FLOOR_MS >= 0,
    ;
    assert(floor_ticks(t.tick_interval_ms) == q);
}

/// A re-send cadence is cut only to fit the stall budget: one that fits stays.
pub proof fn law_cadence_is_cut_no_further(t: Tunables)
    ensures
        ({
            let c = t.capped();
            let budget = t.election_timeout_base * t.reconfigure_timeout_elections;
            &&& t.reconfigurer_resend_ticks <= budget ==> c == t
            &&& t.reconfigurer_resend_ticks > budget ==> c.reconfigurer_resend_ticks == budget && c
                == (Tunables { reconfigurer_resend_ticks: c.reconfigurer_resend_ticks, ..t })
        }),
{
    let budget = t.election_timeout_base * t.reconfigure_timeout_elections;
    assert(budget >= 0) by (nonlinear_arith)
        requires
            budget == t.election_timeout_base * t.reconfigure_timeout_elections,
    ;
}

/// A subset is a window of ranks round the pool: from its rotation on, as many as
/// its size, in rank order.
pub proof fn law_subset_is_a_window(pool: nat, size: nat, rotation: nat, rank: u64)
    requires
        size <= pool <= u64::MAX,
        rotation < pool,
    ensures
        subset_ranks(pool, size, rotation).contains(rank) <==> exists|k: int|
            0 <= k < size && rank == #[trigger] ((rotation + k) % pool as int),
        subset_ranks(pool, size, rotation).len() == size,
{
    law_subset_has_its_size(pool, size, rotation);
    let all = all_ranks(pool);
    let pred = |r: u64| in_window(pool, size, rotation, r as int);
    let list = subset_ranks(pool, size, rotation);
    if list.contains(rank) {
        let i = choose|i: int| 0 <= i < list.len() && list[i] == rank;
        all.lemma_filter_pred(pred, i);
        all.lemma_filter_contains_rev(pred, rank);
        let j = choose|j: int| 0 <= j < all.len() && all[j] == rank;
        assert(rank < pool);
        let k = if rank >= rotation {
            rank - rotation
        } else {
            rank + pool - rotation
        };
        assert(rank == (rotation + k) % pool as int) by {
            if rank >= rotation {
                vstd::arithmetic::div_mod::lemma_small_mod(rank as nat, pool);
            } else {
                vstd::arithmetic::div_mod::lemma_mod_add_multiples_vanish(
                    rank as int,
                    pool as int,
                );
                vstd::arithmetic::div_mod::lemma_small_mod(rank as nat, pool);
            }
        }
    }
    if exists|k: int| 0 <= k < size && rank == #[trigger] ((rotation + k) % pool as int) {
        let k = choose|k: int| 0 <= k < size && rank == #[trigger] ((rotation + k) % pool as int);
        vstd::arithmetic::div_mod::lemma_mod_bound(rotation + k, pool as int);
        if rotation + k < pool {
            vstd::arithmetic::div_mod::lemma_small_mod((rotation + k) as nat, pool);
        } else {
            vstd::arithmetic::div_mod::lemma_mod_add_multiples_vanish(
                rotation + k - pool,
                pool as int,
            );
            vstd::arithmetic::div_mod::lemma_small_mod((rotation + k - pool) as nat, pool);
        }
        assert(all[rank as int] == rank);
        assert(pred(rank));
        all.lemma_filter_contains(pred, rank as int);
    }
}

/// A drawn bootstrap holds at least its floor of ranks, all of them in the pool.
pub proof fn law_drawn_bootstrap_keeps_its_floor(ranks: Seq<u64>, pool: nat, floor: nat, i: int)
    requires
        floor <= pool <= u64::MAX,
        drawn_ranks(ranks, pool, floor),
        0 <= i < ranks.len(),
    ensures
        floor <= ranks.len() <= pool,
        ranks[i] < pool,
{
    if ranks != all_ranks(pool) {
        let (size, rotation) = choose|size: nat, rotation: nat|
            floor <= size < pool && rotation < pool && ranks == #[trigger] subset_ranks(
                pool,
                size,
                rotation,
            );
        law_subset_is_a_window(pool, size, rotation, ranks[i]);
        assert(ranks.contains(ranks[i]));
        let k = choose|k: int| 0 <= k < size && ranks[i] == #[trigger] ((rotation + k) % pool as int);
        vstd::arithmetic::div_mod::lemma_mod_bound(rotation + k, pool as int);
    }
}

/// A run's policy is a split where its second quorum is not the majority, and
/// otherwise a majority or one of the grids that tile the pool; every such grid
/// can be picked.
pub proof fn law_policy_draw_reaches_every_grid(pool: nat, q2: nat, pick: nat, rows: int)
    requires
        pool <= usize::MAX,
        q2 <= usize::MAX,
    ensures
        q2 != pool / 2 + 1 ==> selected_policy(pool, q2, pick) == (QuorumPolicy::Flexible {
            q2: q2 as usize,
        }),
        q2 == pool / 2 + 1 ==> match selected_policy(pool, q2, pick) {
            QuorumPolicy::Majority => true,
            QuorumPolicy::Grid { rows, cols } => rows >= 2 && cols >= 2 && rows * cols == pool
                && pick > 0,
            QuorumPolicy::Flexible { q2 } => false,
        },
        selected_policy(pool, pool / 2 + 1, 0) == QuorumPolicy::Majority,
        tiles(pool, rows) ==> exists|p: nat|
            #[trigger] selected_policy(pool, pool / 2 + 1, p) == (QuorumPolicy::Grid {
                rows: rows as usize,
                cols: (pool as int / rows) as usize,
            }),
{
    let layouts = layouts_below(pool, pool as int);
    if 1 <= pick <= layouts.len() {
        law_grid_layouts_tile(pool, pool as int, pick - 1);
    }
    if tiles(pool, rows) {
        law_grid_layouts_complete(pool, pool as int, rows);
        let i = choose|i: int|
            0 <= i < layouts.len() && #[trigger] layouts[i] == (
                rows as usize,
                (pool as int / rows) as usize,
            );
        let p = (i + 1) as nat;
        assert(selected_policy(pool, pool / 2 + 1, p) == (QuorumPolicy::Grid {
            rows: rows as usize,
            cols: (pool as int / rows) as usize,
        }));
    }
}

/// The loss a policy tolerates at a size leaves both of its quorums standing, and
/// one node more would not. A grid counts on every node.
pub proof fn law_tolerated_loss_is_tight(policy: QuorumPolicy, n: nat)
    requires
        1 <= n <= usize::MAX,
    ensures
        ({
            let system = policy.system_at(n);
            let loss = policy.loss_at(n);
            &&& system is Grid ==> loss == 0
            &&& !(system is Grid) ==> {
                &&& n - loss >= system.phase1(n) && n - loss >= system.phase2(n)
                &&& n - loss - 1 < system.phase1(n) || n - loss - 1 < system.phase2(n)
            }
        }),
{
    crate::quorum::law_policy_is_always_sound(policy, n);
}

/// The least tolerated loss over a range of sizes is that of one of them.
pub proof fn law_least_loss_is_attained(policy: QuorumPolicy, lo: nat, hi: nat)
    requires
        lo <= hi,
    ensures
        exists|n: nat|
            lo <= n <= hi && #[trigger] policy.loss_at(n) == policy.least_loss(lo, hi),
        forall|n: nat| lo <= n <= hi ==> policy.least_loss(lo, hi) <= #[trigger] policy.loss_at(n),
    decreases hi,
{
    if hi > lo {
        law_least_loss_is_attained(policy, lo, (hi - 1) as nat);
        let m = choose|n: nat|
            lo <= n <= hi - 1 && #[trigger] policy.loss_at(n) == policy.least_loss(
                lo,
                (hi - 1) as nat,
            );
        assert(policy.loss_at(hi) < policy.least_loss(lo, (hi - 1) as nat) || policy.loss_at(m)
            == policy.least_loss(lo, hi));
    } else {
        assert(policy.loss_at(lo) == policy.least_loss(lo, hi));
    }
}

/// The clean copies a record keeps at the floor are enough at every size the run
/// may put in force, and one fewer would not be.
pub proof fn law_copies_needed_are_tight(policy: QuorumPolicy, floor: nat, pool: nat, n: nat)
    requires
        1 <= floor <= n <= pool <= usize::MAX,
    ensures
        floor - policy.copies_at(floor, pool) <= policy.loss_at(n),
        policy.copies_at(floor, pool) > 0 ==> exists|m: nat|
            floor <= m <= pool && floor - (policy.copies_at(floor, pool) - 1)
                > #[trigger] policy.loss_at(m),
        policy.copies_at(floor, pool) <= floor,
{
    law_least_loss_is_attained(policy, floor, pool);
    let m = choose|m: nat|
        floor <= m <= pool && #[trigger] policy.loss_at(m) == policy.least_loss(floor, pool);
    law_tolerated_loss_is_tight(policy, floor);
    assert(policy.least_loss(floor, pool) <= policy.loss_at(floor));
    assert(policy.loss_at(m) == policy.least_loss(floor, pool));
}

/// What a run draws, it draws once: whatever the first caller was told of the lanes,
/// the policy, and the two bootstraps, every later one is told the same, however it
/// asks.
pub proof fn law_run_draws_once(
    r: RegistryView,
    lanes: u8,
    policy: QuorumPolicy,
    ranks: Seq<u64>,
    matchmakers: Seq<u64>,
    again: u8,
    other: QuorumPolicy,
    others: Seq<u64>,
    more: Seq<u64>,
    default_lanes: u8,
    pool: nat,
    has_matchmakers: bool,
    perturb: bool,
)
    ensures
        ({
            let after = RegistryView {
                lanes: Some(lanes),
                quorum: Some(policy),
                bootstrap: Some(ranks),
                matchmaker_bootstrap: Some(matchmakers),
                ..r
            };
            &&& after.gives_lanes(default_lanes, perturb, again) <==> again == lanes
            &&& after.gives_policy(pool, perturb, other) <==> other == policy
            &&& after.gives_bootstrap(pool, has_matchmakers, perturb, others) <==> others == ranks
            &&& after.gives_matchmakers(pool, perturb, more) <==> more == matchmakers
        }),
{
}

/// A run that is not perturbed draws nothing: it takes the default lanes, majority
/// quorums, the whole pool, and all matchmakers; and so does a pool that is too
/// small to draw from.
pub proof fn law_unperturbed_run_draws_nothing(
    r: RegistryView,
    lanes: u8,
    policy: QuorumPolicy,
    ranks: Seq<u64>,
    matchmakers: Seq<u64>,
    default_lanes: u8,
    pool: nat,
    has_matchmakers: bool,
)
    requires
        r.lanes is None && r.quorum is None && r.bootstrap is None && r.matchmaker_bootstrap is None,
    ensures
        r.gives_lanes(default_lanes, false, lanes) <==> lanes == default_lanes,
        r.gives_policy(pool, false, policy) <==> policy == QuorumPolicy::Majority,
        r.gives_bootstrap(pool, has_matchmakers, false, ranks) <==> ranks == all_ranks(pool),
        r.gives_bootstrap(pool, false, true, ranks) <==> ranks == all_ranks(pool),
        r.gives_matchmakers(pool, false, matchmakers) <==> matchmakers == all_ranks(pool),
        pool < 2 ==> (r.gives_policy(pool, true, policy) <==> policy == QuorumPolicy::Majority),
        r.gives_lanes(default_lanes, true, lanes) ==> lanes == default_lanes || lanes > 0,
{
}

/// A node keeps its shape for life, and its incarnations are numbered from one on,
/// each once.
pub proof fn law_node_keeps_its_shape(
    r: RegistryView,
    key: u64,
    perturb: bool,
    defaults: Tunables,
    first: Incarnation,
    second: Incarnation,
    again: bool,
    others: Tunables,
)
    requires
        !r.nodes.contains_key(key),
        r.gives_incarnation(key, perturb, defaults, first),
        ({
            let after = RegistryView {
                nodes: r.nodes.insert(
                    key,
                    ShapeEntry { shape: first.shape, incarnations: first.number },
                ),
                ..r
            };
            after.gives_incarnation(key, again, others, second)
        }),
    ensures
        first.number == 1,
        second.number == 2,
        second.shape == first.shape,
        !perturb ==> first.shape == NodeShape::standard(defaults),
        perturb ==> first.shape.drawn_from(defaults),
{
}

} // verus!
