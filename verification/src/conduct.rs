//! How a run is conducted around its nodes: what the first process fixes, when a
//! node is down, held or restarted, which decisions are perturbed, and how a
//! batch of facts is put in order and judged.
use crate::CHAOS_DURATION_MS;
use crate::hooks::{BuggifyHooks, MessageKind, Seam, Site, drop_rate, duplicate_rate};
use crate::oracle::{
    AgreementView, CampaignGates, ChainEvent, StreamCounts, Violations, in_run_order, occurs_in,
    placed_event, regime_of,
};
use crate::process::{
    BootGate, ExitStep, HoldGate, NodeMode, NodeProcess, RunExit, boot_gate, budget_floor,
    hold_gate, matchmaker_exit_step, node_exit_step,
};
use crate::records::AppView;
use crate::shape::MIN_BOOTSTRAP;
use crate::world::WorldView;
use vstd::prelude::*;

verus! {

/// The first process fixes the world and every later one finds it fixed: a second
/// preparation changes nothing, and agrees exactly if it counts on the same size.
/// Only a scripted process lifts the budget.
pub proof fn law_world_is_prepared_once(
    first: NodeProcess,
    second: NodeProcess,
    w: WorldView,
    pool: usize,
    has_matchmakers: bool,
    lanes: u8,
    empty: AppView,
    other_pool: usize,
    other_lanes: u8,
    other_empty: AppView,
)
    requires
        pool > 0,
        w.cluster_size == 0,
        w.lane_count is None,
    ensures
        ({
            let once = first.prepared(w, pool, has_matchmakers, lanes, empty);
            let twice = second.prepared(once, other_pool, has_matchmakers, other_lanes, other_empty);
            &&& once.cluster_size == budget_floor(pool, has_matchmakers)
            &&& once.lane_count == Some(lanes)
            &&& once.empty == empty
            &&& once.unbudgeted <==> w.unbudgeted || first.mode == NodeMode::Scripted
            &&& once.disks == w.disks && once.parked == w.parked && once.marks == w.marks
            &&& twice.cluster_size == once.cluster_size
            &&& twice.lane_count == once.lane_count
            &&& twice.empty == once.empty
            &&& second.mode == first.mode ==> twice == once
        }),
{
}

/// The budget counts on the whole pool, unless matchmakers may shrink it: then on
/// the smallest configuration a run may bootstrap with, and never on more nodes
/// than there are.
pub proof fn law_budget_counts_on_the_smallest_configuration(pool: usize, has_matchmakers: bool)
    ensures
        budget_floor(pool, has_matchmakers) <= pool,
        !has_matchmakers ==> budget_floor(pool, has_matchmakers) == pool,
        has_matchmakers && pool >= MIN_BOOTSTRAP ==> budget_floor(pool, has_matchmakers)
            == MIN_BOOTSTRAP,
        pool <= MIN_BOOTSTRAP ==> budget_floor(pool, has_matchmakers) == pool,
{
}

/// A held node waits, or stops with the run, until it is released; it then boots
/// at a later epoch than it was dropped at. Other nodes are not touched, and a
/// parked one stays down either way.
pub proof fn law_held_node_is_dropped_and_waits(
    w: WorldView,
    key: u64,
    other: u64,
    boot_epoch: u64,
    shutdown: bool,
)
    requires
        w.epoch(key) < u64::MAX,
        boot_epoch <= w.epoch(key),
        other != key,
    ensures
        ({
            let held = w.hold(key);
            let released = held.release(key);
            &&& held.epoch(key) == w.epoch(key) + 1
            &&& held.epoch(key) > boot_epoch
            &&& held.held.contains(key)
            &&& !w.parked.contains(key) ==> {
                &&& hold_gate(held, key, false) == HoldGate::Wait
                &&& hold_gate(held, key, true) == HoldGate::Stop
                &&& hold_gate(released, key, shutdown) == (HoldGate::Boot {
                    epoch: held.epoch(key),
                })
            }
            &&& w.parked.contains(key) ==> hold_gate(held, key, shutdown) == HoldGate::StayDown
                && hold_gate(released, key, shutdown) == HoldGate::StayDown
            &&& hold_gate(held, other, shutdown) == hold_gate(w, other, shutdown)
            &&& hold_gate(released, other, shutdown) == hold_gate(w, other, shutdown)
            &&& held.disks == w.disks && released.disks == w.disks
            &&& held.parked == w.parked && released.parked == w.parked
        }),
{
}

/// Each request for a restart is seen once: the epoch rises by one on the node
/// that was asked, and on no other, and no node is held down by it.
pub proof fn law_restart_raises_one_epoch(w: WorldView, key: u64, other: u64)
    requires
        w.epoch(key) < u64::MAX,
        other != key,
    ensures
        w.restarted(key).epoch(key) == w.epoch(key) + 1,
        w.restarted(key).epoch(other) == w.epoch(other),
        w.restarted(key).held == w.held,
        w.restarted(key).disks == w.disks,
{
}

/// A node boots exactly if nothing keeps it down, and is told the first reason
/// that does.
pub proof fn law_boot_gate_names_the_first_reason(retired: bool, wiped: bool, parked: bool)
    ensures
        boot_gate(retired, wiped, parked) == BootGate::Boot <==> !retired && !wiped && !parked,
        boot_gate(true, wiped, parked) == BootGate::Retired,
        boot_gate(false, true, parked) == BootGate::Wiped,
        boot_gate(false, false, true) == BootGate::Parked,
{
}

/// Only the infrastructure's failure fails a process, only a clean end is done,
/// and only a storage fault of a parked node keeps it down. A restart waits for
/// the delay it was given. A matchmaker is never kept down.
pub proof fn law_exit_leads_where_it_must(exit: RunExit, parked: bool, delay_ms: u64)
    ensures
        node_exit_step(exit, parked, delay_ms) == ExitStep::Fail <==> exit == RunExit::Infra,
        node_exit_step(exit, parked, delay_ms) == ExitStep::Done <==> exit == RunExit::Clean,
        node_exit_step(exit, parked, delay_ms) == ExitStep::StayDown <==> exit == RunExit::Storage
            && parked,
        node_exit_step(exit, parked, delay_ms) matches ExitStep::Restart { delay_ms: waits }
            ==> waits == delay_ms,
        matchmaker_exit_step(exit, delay_ms) == ExitStep::Fail <==> exit == RunExit::Infra,
        matchmaker_exit_step(exit, delay_ms) == ExitStep::Done <==> exit == RunExit::Clean,
        matchmaker_exit_step(exit, delay_ms) != ExitStep::StayDown,
        matchmaker_exit_step(exit, delay_ms) matches ExitStep::Restart { delay_ms: waits }
            ==> waits == delay_ms,
{
}

/// The wipe coin is tossed only for a restarted node of a perturbed run with
/// matchmakers to replace it, and never in the quiet tail: wherever it is tossed,
/// it is also tossed earlier in the window, and not once the window is over.
pub proof fn law_wipe_coin_keeps_to_the_window(
    process: NodeProcess,
    restart: bool,
    has_matchmakers: bool,
    now_ms: u64,
    earlier_ms: u64,
)
    requires
        earlier_ms <= now_ms,
    ensures
        process.tosses_wipe(restart, has_matchmakers, now_ms) ==> {
            &&& restart && has_matchmakers && process.mode == NodeMode::Chaotic
            &&& now_ms < CHAOS_DURATION_MS
            &&& process.tosses_wipe(restart, has_matchmakers, earlier_ms)
        },
        restart && has_matchmakers && process.mode == NodeMode::Chaotic && now_ms
            < CHAOS_DURATION_MS ==> process.tosses_wipe(restart, has_matchmakers, now_ms),
{
}

/// While a node's hooks are live every site but an unknown message is tossed for;
/// seam crashes scale with the node's bias, the replay seam alone does not, and
/// nothing else does.
pub proof fn law_live_hooks_toss_for_every_site(
    hooks: BuggifyHooks,
    other: BuggifyHooks,
    now_ms: u64,
    seam: Seam,
    site: Site,
)
    requires
        hooks.valid(),
        other.valid(),
        hooks.enabled && now_ms < hooks.cutoff_ms,
        other.enabled && now_ms < other.cutoff_ms,
    ensures
        seam != Seam::AfterBootReplayBeforeSync ==> (hooks.odds_at(now_ms, Site::Crash(seam))
            matches Some(odds) && (other.odds_at(now_ms, Site::Crash(seam)) matches Some(others)
            && odds * other.seam_crash_bias == others * hooks.seam_crash_bias)),
        !(site is Crash) ==> hooks.odds_at(now_ms, site) == other.odds_at(now_ms, site),
        hooks.odds_at(now_ms, Site::Crash(Seam::AfterBootReplayBeforeSync)) == other.odds_at(
            now_ms,
            Site::Crash(Seam::AfterBootReplayBeforeSync),
        ),
        !(site is Drop) && !(site is Duplicate) ==> hooks.odds_at(now_ms, site) is Some,
{
    let a = hooks.seam_crash_bias;
    let b = other.seam_crash_bias;
    assert((30 * a) * b == (30 * b) * a) by (nonlinear_arith);
}

/// Every known message may be lost; one may be doubled only if it answers a
/// request, carries state that installs once, or hands authority over, and never
/// if it opens a round of its own.
pub proof fn law_messages_are_lost_and_doubled(kind: MessageKind)
    ensures
        drop_rate(kind) == 0 <==> kind == MessageKind::Other,
        kind == MessageKind::Accept || kind == MessageKind::Prepare || kind == MessageKind::Nack
            || kind == MessageKind::Heartbeat || kind == MessageKind::CheckLeader || kind
            == MessageKind::Other <==> duplicate_rate(kind) == 0,
        drop_rate(MessageKind::Heartbeat) <= drop_rate(kind) || kind == MessageKind::Other,
        drop_rate(kind) <= drop_rate(MessageKind::Nack),
        duplicate_rate(kind) <= duplicate_rate(MessageKind::Relinquish),
        duplicate_rate(kind) <= drop_rate(kind) || kind == MessageKind::HeartbeatAck,
{
}

proof fn lemma_placed_keeps_ties(list: Seq<ChainEvent>, event: ChainEvent, seq: u64)
    requires
        forall|i: int, j: int|
            0 <= i <= j < list.len() ==> (#[trigger] list[i]).seq <= (#[trigger] list[j]).seq,
    ensures
        ({
            let at = |e: ChainEvent| e.seq == seq;
            placed_event(list, event).filter(at) == if event.seq == seq {
                list.filter(at).push(event)
            } else {
                list.filter(at)
            }
        }),
    decreases list.len(),
{
    reveal(Seq::filter);
    let at = |e: ChainEvent| e.seq == seq;
    if list.len() == 0 {
        assert(placed_event(list, event).drop_last() =~= Seq::<ChainEvent>::empty());
        assert(list.filter(at) =~= Seq::<ChainEvent>::empty());
        assert(Seq::<ChainEvent>::empty().filter(at) =~= Seq::<ChainEvent>::empty());
    } else if event.seq < list.last().seq {
        let front = list.drop_last();
        lemma_placed_keeps_ties(front, event, seq);
        let placed = placed_event(front, event).push(list.last());
        assert(placed.drop_last() =~= placed_event(front, event));
        if event.seq == seq {
            assert(!at(list.last()));
        }
    } else {
        assert(list.push(event).drop_last() =~= list);
    }
}

/// Facts of the same instant keep the order in which they arrived.
pub proof fn law_run_order_keeps_ties(events: Seq<ChainEvent>, seq: u64)
    ensures
        in_run_order(events).filter(|e: ChainEvent| e.seq == seq) == events.filter(
            |e: ChainEvent| e.seq == seq,
        ),
    decreases events.len(),
{
    reveal(Seq::filter);
    let at = |e: ChainEvent| e.seq == seq;
    if events.len() == 0 {
        assert(in_run_order(events) =~= events);
    } else {
        let front = events.drop_last();
        law_run_order_keeps_ties(front, seq);
        crate::oracle::law_run_order_sorts(front);
        lemma_placed_keeps_ties(in_run_order(front), events.last(), seq);
    }
}

proof fn lemma_walks_join(v: AgreementView, first: Seq<ChainEvent>, second: Seq<ChainEvent>)
    ensures
        v.after_all(first).after_all(second) == v.after_all(first + second),
        v.violated_by_all(first).or(v.after_all(first).violated_by_all(second))
            == v.violated_by_all(first + second),
        v.frontiers_of_all(first) + v.after_all(first).frontiers_of_all(second)
            == v.frontiers_of_all(first + second),
    decreases second.len(),
{
    if second.len() == 0 {
        assert(first + second =~= first);
        assert(v.frontiers_of_all(first) + v.after_all(first).frontiers_of_all(second)
            =~= v.frontiers_of_all(first));
    } else {
        let front = second.drop_last();
        lemma_walks_join(v, first, front);
        let joined = first + second;
        assert(joined.drop_last() =~= first + front);
        assert(joined.last() == second.last());
        assert(v.frontiers_of_all(first) + v.after_all(first).frontiers_of_all(second)
            =~= v.frontiers_of_all(joined));
    }
}

/// A batch is judged as one walk: the submissions as they came, then the rest by
/// their instants. What it finds and leaves is what facing those facts one by one
/// would.
pub proof fn law_batch_is_one_walk(
    v: AgreementView,
    submitted: Seq<ChainEvent>,
    events: Seq<ChainEvent>,
)
    ensures
        ({
            let walk = submitted + in_run_order(events);
            &&& v.after_batch(submitted, events) == v.after_all(walk)
            &&& v.violated_by_batch(submitted, events) == v.violated_by_all(walk)
            &&& v.frontiers_of_batch(submitted, events) == v.frontiers_of_all(walk)
        }),
{
    lemma_walks_join(v, submitted, in_run_order(events));
}

/// A batch that is empty finds nothing and changes nothing.
pub proof fn law_empty_batch_is_silent(v: AgreementView)
    ensures
        v.after_batch(seq![], seq![]) == v,
        v.violated_by_batch(seq![], seq![]) == Violations::none(),
        v.frontiers_of_batch(seq![], seq![]).len() == 0,
{
}

/// The safety flavour asks for one thing only; a campaign asks for a second
/// leader, for its predecessor's end however it came, for a proposal
/// acknowledged after the change, for a truncation asked and done, and for an
/// installed snapshot.
pub proof fn law_gates_ask_for_the_whole_campaign(v: AgreementView, counts: StreamCounts)
    ensures
        match v.campaign_gates(counts) {
            CampaignGates::SafetyOnly { noop_applied } => v.safety_only && noop_applied
                == v.noop_applied,
            CampaignGates::Campaign {
                acknowledged_after_change,
                compaction_took_effect,
                snapshot_installed,
                old_leader_gone,
                new_leader_elected,
            } => {
                &&& !v.safety_only
                &&& acknowledged_after_change <==> v.second_leader_seq is Some && v.max_ack_seq
                    is Some && v.max_ack_seq->0 > v.second_leader_seq->0
                &&& compaction_took_effect <==> counts.compact_accepted > 0 && counts.compacted > 0
                &&& snapshot_installed <==> counts.snapshot_installed > 0
                &&& !old_leader_gone <==> counts.resigned == 0 && counts.crashed == 0
                    && counts.relinquished == 0
                &&& new_leader_elected <==> v.leaders_seen > 1
            },
        },
{
}

/// A fault whose kind names storage anywhere is a storage fault, whatever else
/// it names; one that names a process and no storage is a process fault; and any
/// other is a fault of the network.
pub proof fn law_regime_follows_the_name(before: Seq<char>, after: Seq<char>, kind: Seq<char>)
    ensures
        regime_of(before + "storage"@ + after) == 2,
        !occurs_in(before + "process"@ + after, "storage"@) ==> regime_of(
            before + "process"@ + after,
        ) == 3,
        regime_of(kind) == 1 <==> !occurs_in(kind, "storage"@) && !occurs_in(kind, "process"@),
{
    let storage = "storage"@;
    let text = before + storage + after;
    assert(text.subrange(before.len() as int, before.len() as int + storage.len()) =~= storage);
    let process = "process"@;
    let other = before + process + after;
    assert(other.subrange(before.len() as int, before.len() as int + process.len()) =~= process);
}

} // verus!
