//! What the application-state oracle is for, in terms of a run's facts alone:
//! each violation is flagged exactly where the facts before it call for it.
use crate::oracle::{
    AgreementView, ChainEvent, ChainFact, Frontier, Violations, applies, applies_command, moves,
};
use crate::stage::CommandKind;
use vstd::prelude::*;

verus! {

/// A complete snapshot install of `node` at `index`.
pub open spec fn installs_at(event: ChainEvent, node: u64, index: u64) -> bool {
    event.fact matches ChainFact::Snapshot { node: n, index: i, state } && n == Some(node) && i
        == Some(index) && state is Some
}

/// A complete transition of `node` at `index`.
pub open spec fn transits_at(event: ChainEvent, node: u64, index: u64) -> bool {
    event.fact matches ChainFact::Applied { node: n, index: i, state, command, kind, slot } && n
        == Some(node) && i == Some(index) && state is Some
}

/// A fact that brought `node` to `index`, by a transition or by an install.
pub open spec fn brings_to(event: ChainEvent, node: u64, index: u64) -> bool {
    installs_at(event, node, index) || transits_at(event, node, index)
}

pub open spec fn resets(event: ChainEvent, node: u64) -> bool {
    event.fact == (ChainFact::Reset { node: Some(node) })
}

/// No fact of `node` stands from `from` to before `to`.
pub open spec fn silent(events: Seq<ChainEvent>, node: u64, from: int, to: int) -> bool {
    forall|k: int| from <= k < to ==> !moves(#[trigger] events[k], node)
}

/// The oracle's state before fact `j`.
pub open spec fn before(v: AgreementView, events: Seq<ChainEvent>, j: int) -> AgreementView {
    v.after_all(events.take(j))
}

/// What fact `j` is judged to violate.
pub open spec fn judged(v: AgreementView, events: Seq<ChainEvent>, j: int) -> Violations {
    before(v, events, j).violated(events[j])
}

proof fn lemma_before(v: AgreementView, events: Seq<ChainEvent>, j: int)
    requires
        0 < j <= events.len(),
    ensures
        before(v, events, j) == before(v, events, j - 1).after(events[j - 1]),
{
    assert(events.take(j).drop_last() =~= events.take(j - 1));
    assert(events.take(j).last() == events[j - 1]);
}

/// The four ways in which a fact can violate.
#[derive(Clone, Copy, Debug, PartialEq, Eq, Structural)]
pub enum ViolationKind {
    BackwardJump,
    Disagreement,
    Gap,
    Unproposed,
}

pub open spec fn told(violations: Violations, kind: ViolationKind) -> bool {
    match kind {
        ViolationKind::BackwardJump => violations.backward_jump,
        ViolationKind::Disagreement => violations.disagreement,
        ViolationKind::Gap => violations.gap,
        ViolationKind::Unproposed => violations.unproposed,
    }
}

proof fn lemma_front_is_judged_alike(v: AgreementView, events: Seq<ChainEvent>, j: int)
    requires
        0 <= j < events.len() - 1,
    ensures
        judged(v, events, j) == judged(v, events.drop_last(), j),
{
    assert(events.take(j) =~= events.drop_last().take(j));
    assert(events.drop_last()[j] == events[j]);
}

/// A violation of a fact, judged against the facts before it, is one of the
/// run: none is lost.
pub proof fn law_no_violation_is_lost(
    v: AgreementView,
    events: Seq<ChainEvent>,
    j: int,
    kind: ViolationKind,
)
    requires
        0 <= j < events.len(),
        told(judged(v, events, j), kind),
    ensures
        told(v.violated_by_all(events), kind),
    decreases events.len(),
{
    let front = events.drop_last();
    if j < front.len() {
        lemma_front_is_judged_alike(v, events, j);
        law_no_violation_is_lost(v, front, j, kind);
    } else {
        assert(events.take(j) =~= front);
    }
}

/// A violation of the run is one of some fact of it, judged against the facts
/// before that one: none is invented.
pub proof fn law_no_violation_is_invented(
    v: AgreementView,
    events: Seq<ChainEvent>,
    kind: ViolationKind,
) -> (j: int)
    requires
        told(v.violated_by_all(events), kind),
    ensures
        0 <= j < events.len(),
        told(judged(v, events, j), kind),
    decreases events.len(),
{
    if events.len() == 0 {
        0
    } else {
        let front = events.drop_last();
        if told(v.violated_by_all(front), kind) {
            let j = law_no_violation_is_invented(v, front, kind);
            lemma_front_is_judged_alike(v, events, j);
            j
        } else {
            assert(events.take(events.len() - 1) =~= front);
            events.len() - 1
        }
    }
}

proof fn lemma_silence_keeps_index(
    v: AgreementView,
    events: Seq<ChainEvent>,
    node: u64,
    from: int,
    to: int,
)
    requires
        0 <= from <= to <= events.len(),
        silent(events, node, from, to),
    ensures
        before(v, events, to).node_index.contains_key(node) == before(
            v,
            events,
            from,
        ).node_index.contains_key(node),
        before(v, events, from).node_index.contains_key(node) ==> before(
            v,
            events,
            to,
        ).node_index[node] == before(v, events, from).node_index[node],
    decreases to - from,
{
    if from < to {
        lemma_silence_keeps_index(v, events, node, from, to - 1);
        lemma_before(v, events, to);
        assert(!moves(events[to - 1], node));
    }
}

/// A snapshot jump is flagged as backward exactly where it moves the node below
/// the index that the node's last fact brought it to. So in a run judged free of
/// backward jumps no install goes below it.
pub proof fn law_backward_jump_is_flagged(
    v: AgreementView,
    events: Seq<ChainEvent>,
    node: u64,
    i: int,
    j: int,
    a: u64,
    b: u64,
)
    requires
        0 <= i < j < events.len(),
        brings_to(events[i], node, a),
        installs_at(events[j], node, b),
        silent(events, node, i + 1, j),
    ensures
        judged(v, events, j).backward_jump <==> b < a,
        !v.violated_by_all(events).backward_jump ==> b >= a,
{
    lemma_before(v, events, i + 1);
    lemma_silence_keeps_index(v, events, node, i + 1, j);
    if judged(v, events, j).backward_jump {
        law_no_violation_is_lost(v, events, j, ViolationKind::BackwardJump);
    }
}

/// An install on a node without an index, one that no fact has placed yet or
/// whose last fact reset it, is never a backward jump; nor is anything but an
/// install.
pub proof fn law_jump_needs_an_index(
    v: AgreementView,
    events: Seq<ChainEvent>,
    node: u64,
    from: int,
    j: int,
    b: u64,
)
    requires
        0 <= from <= j < events.len(),
        from == 0 ==> !v.node_index.contains_key(node),
        from > 0 ==> resets(events[from - 1], node),
        silent(events, node, from, j),
    ensures
        installs_at(events[j], node, b) ==> !judged(v, events, j).backward_jump,
        !(events[j].fact is Snapshot) ==> !judged(v, events, j).backward_jump,
        transits_at(events[j], node, b) ==> (judged(v, events, j).gap <==> b != 1),
{
    if from > 0 {
        lemma_before(v, events, from);
    } else {
        assert(events.take(0) =~= Seq::<ChainEvent>::empty());
    }
    lemma_silence_keeps_index(v, events, node, from, j);
}

/// A transition is flagged as a gap exactly where it is not the next index after
/// the one that the node's last fact brought it to; nothing else is a gap.
pub proof fn law_gap_is_flagged(
    v: AgreementView,
    events: Seq<ChainEvent>,
    node: u64,
    i: int,
    j: int,
    a: u64,
    b: u64,
)
    requires
        0 <= i < j < events.len(),
        brings_to(events[i], node, a),
        silent(events, node, i + 1, j),
        a < u64::MAX,
    ensures
        transits_at(events[j], node, b) ==> (judged(v, events, j).gap <==> b != a + 1),
        transits_at(events[j], node, b) && !v.violated_by_all(events).gap ==> b == a + 1,
        !(events[j].fact is Applied) ==> !judged(v, events, j).gap,
{
    lemma_before(v, events, i + 1);
    lemma_silence_keeps_index(v, events, node, i + 1, j);
    if judged(v, events, j).gap {
        law_no_violation_is_lost(v, events, j, ViolationKind::Gap);
    }
}

/// A fact that lacks the node, the index or the state is ignored: it violates
/// nothing, settles nothing and moves no node.
pub proof fn law_incomplete_facts_are_ignored(v: AgreementView, event: ChainEvent)
    requires
        forall|node: u64, index: u64| !#[trigger] brings_to(event, node, index),
        event.fact is Snapshot || event.fact is Applied,
    ensures
        v.violated(event) == Violations::none(),
        v.after(event).node_index == v.node_index,
        v.after(event).states == v.states,
        v.after(event).commands == v.commands,
{
    match event.fact {
        ChainFact::Snapshot { node: Some(node), index: Some(index), state: Some(_) } => {
            assert(brings_to(event, node, index));
        },
        ChainFact::Applied {
            node: Some(node),
            index: Some(index),
            state: Some(_),
            command,
            kind,
            slot,
        } => {
            assert(brings_to(event, node, index));
        },
        _ => {},
    }
}

proof fn lemma_settled_state(safety: bool, events: Seq<ChainEvent>, index: u64) -> (i: int)
    requires
        AgreementView::blank(safety).after_all(events).states.contains_key(index),
    ensures
        0 <= i < events.len(),
        applies(events[i], index, AgreementView::blank(safety).after_all(events).states[index]),
    decreases events.len(),
{
    if events.len() == 0 {
        0
    } else {
        let v = AgreementView::blank(safety);
        let front = events.drop_last();
        if v.after_all(front).states.contains_key(index) {
            let i = lemma_settled_state(safety, front, index);
            crate::oracle::law_states_are_settled_once(v.after_all(front), events.last(), index);
            assert(front[i] == events[i]);
            i
        } else {
            events.len() - 1
        }
    }
}

proof fn lemma_settled_command(safety: bool, events: Seq<ChainEvent>, index: u64) -> (i: int)
    requires
        AgreementView::blank(safety).after_all(events).commands.contains_key(index),
    ensures
        0 <= i < events.len(),
        applies_command(
            events[i],
            index,
            AgreementView::blank(safety).after_all(events).commands[index],
        ),
    decreases events.len(),
{
    if events.len() == 0 {
        0
    } else {
        let v = AgreementView::blank(safety);
        let front = events.drop_last();
        if v.after_all(front).commands.contains_key(index) {
            let i = lemma_settled_command(safety, front, index);
            assert(front[i] == events[i]);
            i
        } else {
            events.len() - 1
        }
    }
}

/// Two facts applied different states, or different commands, at one index.
pub open spec fn at_odds(a: ChainEvent, b: ChainEvent) -> bool {
    (exists|index: u64, s: u64, t: u64| #[trigger]
        applies(a, index, s) && #[trigger] applies(b, index, t) && s != t) || (exists|
        index: u64,
        c: u64,
        d: u64,
    | #[trigger]
        applies_command(a, index, c) && #[trigger] applies_command(b, index, d) && c != d)
}

/// No disagreement is invented: a run judged to disagree holds two facts that
/// applied different states or different commands at one index.
pub proof fn law_disagreement_is_between_two_facts(safety: bool, events: Seq<ChainEvent>) -> (pair: (
    int,
    int,
))
    requires
        AgreementView::blank(safety).violated_by_all(events).disagreement,
    ensures
        0 <= pair.0 < pair.1 < events.len(),
        at_odds(events[pair.0], events[pair.1]),
{
    let v = AgreementView::blank(safety);
    let j = law_no_violation_is_invented(v, events, ViolationKind::Disagreement);
    let w = before(v, events, j);
    let front = events.take(j);
    match events[j].fact {
        ChainFact::Snapshot { node, index: Some(index), state: Some(state) } => {
            let i = lemma_settled_state(safety, front, index);
            assert(front[i] == events[i]);
            assert(applies(events[i], index, w.states[index]));
            assert(applies(events[j], index, state));
            assert(at_odds(events[i], events[j]));
            (i, j)
        },
        ChainFact::Applied {
            node,
            index: Some(index),
            state: Some(state),
            command: Some(command),
            kind,
            slot,
        } => {
            if w.states.contains_key(index) && w.states[index] != state {
                let i = lemma_settled_state(safety, front, index);
                assert(front[i] == events[i]);
                assert(applies(events[i], index, w.states[index]));
                assert(applies(events[j], index, state));
                assert(at_odds(events[i], events[j]));
                (i, j)
            } else {
                let i = lemma_settled_command(safety, front, index);
                assert(front[i] == events[i]);
                assert(applies_command(events[i], index, w.commands[index]));
                assert(applies_command(events[j], index, command));
                assert(at_odds(events[i], events[j]));
                (i, j)
            }
        },
        _ => (0, 0),
    }
}

/// A proposal of `command`.
pub open spec fn submits(event: ChainEvent, command: u64) -> bool {
    event.fact == (ChainFact::Submitted { command: Some(command) })
}

/// The first proposal of `command` before fact `j` is fact `i`.
pub open spec fn first_proposal(events: Seq<ChainEvent>, command: u64, i: int, j: int) -> bool {
    0 <= i < j && submits(events[i], command) && forall|k: int|
        0 <= k < i ==> !submits(#[trigger] events[k], command)
}

proof fn lemma_submitted(safety: bool, events: Seq<ChainEvent>, command: u64, j: int)
    requires
        0 <= j <= events.len(),
    ensures
        ({
            let w = before(AgreementView::blank(safety), events, j);
            &&& w.submitted.contains_key(command) <==> exists|i: int|
                first_proposal(events, command, i, j)
            &&& forall|i: int| #[trigger]
                first_proposal(events, command, i, j) ==> w.submitted[command] == events[i].seq
        }),
    decreases j,
{
    let v = AgreementView::blank(safety);
    let w = before(v, events, j);
    if j == 0 {
        assert(events.take(0) =~= Seq::<ChainEvent>::empty());
    } else {
        lemma_before(v, events, j);
        lemma_submitted(safety, events, command, j - 1);
        let u = before(v, events, j - 1);
        let last = events[j - 1];
        if u.submitted.contains_key(command) {
            let h = j - 1;
            let i = choose|i: int| #[trigger] first_proposal(events, command, i, h);
            assert(first_proposal(events, command, i, j));
            assert forall|k: int| #[trigger] first_proposal(events, command, k, j) implies k
                == i by {
                if k < i {
                    assert(!submits(events[k], command));
                }
                if i < k {
                    assert(!submits(events[i], command));
                }
            }
        } else if submits(last, command) {
            assert forall|k: int| 0 <= k < j - 1 implies !submits(
                #[trigger] events[k],
                command,
            ) by {
                lemma_no_proposal(events, command, k, j - 1);
            }
            assert(first_proposal(events, command, j - 1, j));
            assert forall|k: int| #[trigger] first_proposal(events, command, k, j) implies k == j
                - 1 by {
                if k < j - 1 {
                    assert(first_proposal(events, command, k, j - 1));
                }
            }
        } else {
            assert forall|k: int| !#[trigger] first_proposal(events, command, k, j) by {
                if first_proposal(events, command, k, j) {
                    assert(first_proposal(events, command, k, j - 1));
                }
            }
        }
    }
}

proof fn lemma_no_proposal(events: Seq<ChainEvent>, command: u64, k: int, j: int)
    requires
        0 <= k < j,
        forall|i: int| !first_proposal(events, command, i, j),
    ensures
        !submits(events[k], command),
    decreases k,
{
    if submits(events[k], command) {
        assert forall|m: int| 0 <= m < k implies !submits(#[trigger] events[m], command) by {
            lemma_no_proposal(events, command, m, j);
        }
        assert(first_proposal(events, command, k, j));
    }
}

/// A client's command is judged proposed exactly where its first proposal among
/// the facts so far comes earlier in the run's order; one that nobody proposed
/// is flagged. Nothing but a client's command is ever flagged.
pub proof fn law_unproposed_command_is_flagged(
    safety: bool,
    events: Seq<ChainEvent>,
    j: int,
    command: u64,
)
    requires
        0 <= j < events.len(),
    ensures
        crate::oracle::applies_user(events[j], command) ==> (!judged(
            AgreementView::blank(safety),
            events,
            j,
        ).unproposed <==> exists|i: int| #[trigger]
            first_proposal(events, command, i, j) && events[i].seq < events[j].seq),
        (forall|c: u64| !#[trigger] crate::oracle::applies_user(events[j], c)) ==> !judged(
            AgreementView::blank(safety),
            events,
            j,
        ).unproposed,
{
    lemma_submitted(safety, events, command, j);
    match events[j].fact {
        ChainFact::Applied {
            node: Some(node),
            index: Some(index),
            state: Some(state),
            command: Some(c),
            kind: Some(CommandKind::User),
            slot,
        } => {
            assert(crate::oracle::applies_user(events[j], c));
        },
        _ => {},
    }
}

/// How many of the first `j` facts are elections.
pub open spec fn elections(events: Seq<ChainEvent>, j: int) -> nat
    decreases j,
{
    if j <= 0 {
        0
    } else {
        elections(events, j - 1) + if events[j - 1].fact is Leader {
            1nat
        } else {
            0nat
        }
    }
}

/// Fact `i` is the run's second election.
pub open spec fn second_election(events: Seq<ChainEvent>, i: int) -> bool {
    0 <= i < events.len() && events[i].fact is Leader && elections(events, i) == 1
}

proof fn lemma_elections(safety: bool, events: Seq<ChainEvent>, j: int)
    requires
        0 <= j <= events.len(),
        events.len() <= u64::MAX,
    ensures
        ({
            let w = before(AgreementView::blank(safety), events, j);
            &&& w.leaders_seen == elections(events, j)
            &&& elections(events, j) <= j
            &&& elections(events, j) < 2 ==> w.second_leader_seq is None
            &&& forall|i: int| #[trigger]
                second_election(events, i) && i < j ==> w.second_leader_seq == Some(events[i].seq)
            &&& elections(events, j) >= 2 ==> exists|i: int| #[trigger]
                second_election(events, i) && i < j
        }),
    decreases j,
{
    let v = AgreementView::blank(safety);
    if j == 0 {
        assert(events.take(0) =~= Seq::<ChainEvent>::empty());
    } else {
        lemma_before(v, events, j);
        lemma_elections(safety, events, j - 1);
        let w = before(v, events, j);
        assert forall|i: int| #[trigger] second_election(events, i) && i < j implies
            w.second_leader_seq == Some(events[i].seq) by {
            if i < j - 1 {
                lemma_elections_rise(events, i + 1, j - 1);
            }
        }
        if elections(events, j) >= 2 {
            if elections(events, j - 1) >= 2 {
                let i = choose|i: int| #[trigger] second_election(events, i) && i < j - 1;
                assert(second_election(events, i) && i < j);
            } else {
                assert(second_election(events, j - 1));
            }
        }
    }
}

proof fn lemma_elections_rise(events: Seq<ChainEvent>, i: int, j: int)
    requires
        0 <= i <= j,
    ensures
        elections(events, i) <= elections(events, j),
    decreases j,
{
    if i < j {
        lemma_elections_rise(events, i, j - 1);
    }
}

proof fn lemma_last_ack(safety: bool, events: Seq<ChainEvent>, j: int)
    requires
        0 <= j <= events.len(),
    ensures
        ({
            let w = before(AgreementView::blank(safety), events, j);
            &&& forall|k: int|
                0 <= k < j && (#[trigger] events[k]).fact is Acked ==> w.max_ack_seq is Some
                    && w.max_ack_seq->0 >= events[k].seq
            &&& w.max_ack_seq matches Some(seq) ==> exists|k: int|
                0 <= k < j && (#[trigger] events[k]).fact is Acked && events[k].seq == seq
        }),
    decreases j,
{
    let v = AgreementView::blank(safety);
    if j == 0 {
        assert(events.take(0) =~= Seq::<ChainEvent>::empty());
    } else {
        lemma_before(v, events, j);
        lemma_last_ack(safety, events, j - 1);
        assert(events[j - 1].fact is Acked || !(events[j - 1].fact is Acked));
    }
}

/// Failover shows in the facts: a second leader is counted exactly where two
/// elections are among them, and a proposal counts as acknowledged after the
/// change exactly where an acknowledgement comes after the second election.
pub proof fn law_failover_shows_in_the_facts(safety: bool, events: Seq<ChainEvent>)
    requires
        events.len() <= u64::MAX,
    ensures
        ({
            let w = AgreementView::blank(safety).after_all(events);
            &&& w.leaders_seen == elections(events, events.len() as int)
            &&& w.acked_after_change() <==> exists|i: int, k: int|
                #![trigger events[i], events[k]]
                second_election(events, i) && 0 <= k < events.len() && events[k].fact is Acked
                    && events[k].seq > events[i].seq
        }),
{
    let n = events.len() as int;
    assert(events.take(n) =~= events);
    lemma_elections(safety, events, n);
    lemma_last_ack(safety, events, n);
    let w = AgreementView::blank(safety).after_all(events);
    if w.acked_after_change() {
        let i = choose|i: int| #[trigger] second_election(events, i) && i < n;
        let k = choose|k: int|
            0 <= k < n && (#[trigger] events[k]).fact is Acked && events[k].seq
                == w.max_ack_seq->0;
        assert(events[k].seq > events[i].seq);
    }
    if exists|i: int, k: int|
        #![trigger events[i], events[k]]
        second_election(events, i) && 0 <= k < events.len() && events[k].fact is Acked
            && events[k].seq > events[i].seq {
        let (i, k) = choose|i: int, k: int|
            #![trigger events[i], events[k]]
            second_election(events, i) && 0 <= k < events.len() && events[k].fact is Acked
                && events[k].seq > events[i].seq;
        assert(w.second_leader_seq == Some(events[i].seq));
    }
}

/// A gap fill is noted exactly where a fact applied one.
pub proof fn law_gap_fill_is_noted(safety: bool, events: Seq<ChainEvent>)
    ensures
        AgreementView::blank(safety).after_all(events).noop_applied <==> exists|k: int|
            0 <= k < events.len() && (#[trigger] events[k]).fact is Applied
                && events[k].fact->Applied_kind == Some(CommandKind::Noop),
    decreases events.len(),
{
    if events.len() > 0 {
        let front = events.drop_last();
        law_gap_fill_is_noted(safety, front);
        let last = events[events.len() - 1];
        assert(last == events.last());
        if AgreementView::blank(safety).after_all(front).noop_applied {
            let k = choose|k: int|
                0 <= k < front.len() && (#[trigger] front[k]).fact is Applied
                    && front[k].fact->Applied_kind == Some(CommandKind::Noop);
            assert(events[k] == front[k]);
        }
        if exists|k: int|
            0 <= k < events.len() && (#[trigger] events[k]).fact is Applied
                && events[k].fact->Applied_kind == Some(CommandKind::Noop) {
            let k = choose|k: int|
                0 <= k < events.len() && (#[trigger] events[k]).fact is Applied
                    && events[k].fact->Applied_kind == Some(CommandKind::Noop);
            if k < front.len() {
                assert(front[k] == events[k]);
            }
        }
    }
}

proof fn lemma_floor(safety: bool, events: Seq<ChainEvent>, node: u64, j: int)
    requires
        0 <= j <= events.len(),
    ensures
        ({
            let w = before(AgreementView::blank(safety), events, j);
            &&& forall|k: int, first: u64|
                0 <= k < j && #[trigger] compacts(events[k], node, first) ==> w.floors.contains_key(
                    node,
                ) && w.floors[node] >= first
            &&& w.floors.contains_key(node) ==> exists|k: int|
                0 <= k < j && #[trigger] compacts(events[k], node, w.floors[node])
        }),
    decreases j,
{
    let v = AgreementView::blank(safety);
    if j == 0 {
        assert(events.take(0) =~= Seq::<ChainEvent>::empty());
    } else {
        lemma_before(v, events, j);
        lemma_floor(safety, events, node, j - 1);
        let u = before(v, events, j - 1);
        let w = before(v, events, j);
        if let ChainFact::Compacted { node: Some(n), first: Some(first) } = events[j - 1].fact {
            assert(compacts(events[j - 1], n, first));
        }
        assert forall|k: int, first: u64|
            0 <= k < j && #[trigger] compacts(events[k], node, first) implies w.floors.contains_key(
            node,
        ) && w.floors[node] >= first by {
            if k < j - 1 {
                assert(u.floors.contains_key(node) && u.floors[node] >= first);
            }
        }
        if w.floors.contains_key(node) && u.floors.contains_key(node) && w.floors[node]
            == u.floors[node] {
            let k = choose|k: int|
                0 <= k < j - 1 && #[trigger] compacts(events[k], node, u.floors[node]);
            assert(0 <= k < j && compacts(events[k], node, w.floors[node]));
        }
    }
}

/// A fact that `node` truncated its log below `first`.
pub open spec fn compacts(event: ChainEvent, node: u64, first: u64) -> bool {
    event.fact == (ChainFact::Compacted { node: Some(node), first: Some(first) })
}

/// The coverage frontier places a transition by the facts before it: whether the
/// last election named its node, and whether its slot lies below a floor that
/// its node had reached by then.
pub proof fn law_frontier_places_a_transition(
    safety: bool,
    events: Seq<ChainEvent>,
    j: int,
    frontier: Frontier,
    node: u64,
    slot: Option<u64>,
)
    requires
        0 <= j < events.len(),
        before(AgreementView::blank(safety), events, j).frontier(events[j]) == Some(frontier),
        events[j].fact is Applied,
        events[j].fact->Applied_node == Some(node),
        events[j].fact->Applied_slot == slot,
    ensures
        Some(frontier.applied_count) == events[j].fact->Applied_index,
        events[j].fact->Applied_command is Some,
        frontier.floor == 2 <==> slot is Some && exists|k: int, first: u64|
            0 <= k < j && #[trigger] compacts(events[k], node, first) && first > slot->0,
        frontier.floor == 1 ==> slot is Some && forall|k: int, first: u64|
            0 <= k < j && #[trigger] compacts(events[k], node, first) ==> first <= slot->0,
        frontier.floor == 0 <==> slot is None || forall|k: int, first: u64|
            0 <= k < j ==> !#[trigger] compacts(events[k], node, first),
        forall|i: int|
            0 <= i < j && (#[trigger] events[i]).fact is Leader && elections(events, i + 1)
                == elections(events, j) ==> (frontier.leads <==> events[i].fact->Leader_node
                == Some(node)),
        elections(events, j) == 0 ==> !frontier.leads,
{
    lemma_floor(safety, events, node, j);
    lemma_leader(safety, events, j);
    let w = before(AgreementView::blank(safety), events, j);
    if frontier.floor == 2 {
        let k = choose|k: int| 0 <= k < j && #[trigger] compacts(events[k], node, w.floors[node]);
        assert(compacts(events[k], node, w.floors[node]) && w.floors[node] > slot->0);
    }
    if frontier.floor == 1 {
        let k = choose|k: int| 0 <= k < j && #[trigger] compacts(events[k], node, w.floors[node]);
    }
}

proof fn lemma_leader(safety: bool, events: Seq<ChainEvent>, j: int)
    requires
        0 <= j <= events.len(),
    ensures
        ({
            let w = before(AgreementView::blank(safety), events, j);
            &&& elections(events, j) == 0 ==> w.latest_leader is None
            &&& forall|i: int|
                0 <= i < j && (#[trigger] events[i]).fact is Leader && elections(events, i + 1)
                    == elections(events, j) ==> w.latest_leader == events[i].fact->Leader_node
        }),
    decreases j,
{
    let v = AgreementView::blank(safety);
    if j == 0 {
        assert(events.take(0) =~= Seq::<ChainEvent>::empty());
    } else {
        lemma_before(v, events, j);
        lemma_leader(safety, events, j - 1);
        assert forall|i: int|
            0 <= i < j && (#[trigger] events[i]).fact is Leader && elections(events, i + 1)
                == elections(events, j) implies before(v, events, j).latest_leader
            == events[i].fact->Leader_node by {
            if i < j - 1 {
                lemma_elections_rise(events, i + 1, j - 1);
            }
        }
    }
}

/// The last fault with a regime is the one a transition is placed by.
pub proof fn law_frontier_names_the_last_fault(
    safety: bool,
    events: Seq<ChainEvent>,
    i: int,
    j: int,
    regime: u8,
    frontier: Frontier,
)
    requires
        -1 <= i < j < events.len(),
        i >= 0 ==> events[i].fact == (ChainFact::Fault { regime: Some(regime) }),
        i < 0 ==> regime == 0,
        forall|k: int| i < k < j ==> !((#[trigger] events[k]).fact is Fault),
        before(AgreementView::blank(safety), events, j).frontier(events[j]) == Some(frontier),
    ensures
        frontier.fault == regime,
{
    lemma_fault(safety, events, i, j, regime);
}

proof fn lemma_fault(safety: bool, events: Seq<ChainEvent>, i: int, j: int, regime: u8)
    requires
        -1 <= i < j <= events.len(),
        i >= 0 ==> events[i].fact == (ChainFact::Fault { regime: Some(regime) }),
        i < 0 ==> regime == 0,
        forall|k: int| i < k < j ==> !((#[trigger] events[k]).fact is Fault),
    ensures
        before(AgreementView::blank(safety), events, j).fault_regime == regime,
    decreases j,
{
    let v = AgreementView::blank(safety);
    if j == 0 {
        assert(events.take(0) =~= Seq::<ChainEvent>::empty());
    } else {
        lemma_before(v, events, j);
        if i < j - 1 {
            assert(!(events[j - 1].fact is Fault));
            lemma_fault(safety, events, i, j - 1, regime);
        }
    }
}

/// A complete transition that names its command is placed on the frontier, and
/// nothing else is.
pub proof fn law_transitions_are_placed(v: AgreementView, event: ChainEvent)
    ensures
        v.frontier(event) is Some <==> exists|node: u64, index: u64, command: u64|
            #![trigger transits_at(event, node, index), applies_command(event, index, command)]
            transits_at(event, node, index) && applies_command(event, index, command),
{
    if let ChainFact::Applied {
        node: Some(node),
        index: Some(index),
        state: Some(state),
        command: Some(command),
        kind,
        slot,
    } = event.fact {
        assert(transits_at(event, node, index) && applies_command(event, index, command));
    }
}

} // verus!
