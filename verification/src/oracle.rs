//! The application-state oracle: a fold over the run's application facts, each
//! judged against the prefix before it.
//!
//! It observes only public facts and does not share the state transition. The
//! auxiliary streams ride in the same ordered walk, so each transition sees
//! exactly the leader, fault and floor state established strictly before it.
use crate::ordered::OrdMap;
use crate::stage::CommandKind;
use vstd::prelude::*;
use vstd::string::*;

verus! {

/// One fact of a run. A field a fact may lack is optional; a fact that lacks
/// what it needs is ignored.
#[derive(Clone, Copy, Debug, PartialEq, Eq, Structural)]
pub enum ChainFact {
    /// A client or an operator proposed a command.
    Submitted { command: Option<u64> },
    Leader { node: Option<u64> },
    /// A simulator fault of some regime.
    Fault { regime: Option<u8> },
    Compacted { node: Option<u64>, first: Option<u64> },
    Acked,
    /// An application state jump.
    Snapshot { node: Option<u64>, index: Option<u64>, state: Option<u64> },
    /// A corrupted application snapshot was reset: the node's applied index
    /// legally restarts.
    Reset { node: Option<u64> },
    /// An ordinary application transition.
    Applied {
        node: Option<u64>,
        index: Option<u64>,
        state: Option<u64>,
        command: Option<u64>,
        kind: Option<CommandKind>,
        slot: Option<u64>,
    },
}

/// A fact at its place in the run's order.
#[derive(Clone, Copy, Debug, PartialEq, Eq, Structural)]
pub struct ChainEvent {
    pub seq: u64,
    pub fact: ChainFact,
}

/// What one fact violates.
#[derive(Clone, Copy, Debug, PartialEq, Eq, Structural)]
pub struct Violations {
    /// A snapshot jump moved a node's applied index backward.
    pub backward_jump: bool,
    /// Two states, or two commands, at one applied index.
    pub disagreement: bool,
    /// A node's applies are not contiguous.
    pub gap: bool,
    /// An applied client command nobody had proposed.
    pub unproposed: bool,
}

impl Violations {
    pub open spec fn none() -> Violations {
        Violations { backward_jump: false, disagreement: false, gap: false, unproposed: false }
    }

    pub open spec fn or(self, other: Violations) -> Violations {
        Violations {
            backward_jump: self.backward_jump || other.backward_jump,
            disagreement: self.disagreement || other.disagreement,
            gap: self.gap || other.gap,
            unproposed: self.unproposed || other.unproposed,
        }
    }

    pub fn is_none(self) -> (none: bool)
        ensures
            none == (self == Violations::none()),
    {
        !self.backward_jump && !self.disagreement && !self.gap && !self.unproposed
    }
}

/// Where one transition stands in the explored state space.
#[derive(Clone, Copy, Debug, PartialEq, Eq, Structural)]
pub struct Frontier {
    /// Whether the node was the latest leader.
    pub leads: bool,
    pub fault: u8,
    /// Zero without a floor or a slot, one at or above the floor, two below it.
    pub floor: u8,
    pub applied_count: u64,
}

/// What a batch of facts showed.
pub struct Report {
    pub violations: Violations,
    pub frontiers: Vec<Frontier>,
}

/// The oracle's running state.
pub struct ChainAgreement {
    /// When each command was first proposed.
    pub submitted: OrdMap<u64, u64>,
    pub state_by_index: OrdMap<u64, u64>,
    pub command_by_index: OrdMap<u64, u64>,
    /// Each node's applied index.
    pub node_index: OrdMap<u64, u64>,
    pub latest_leader: Option<u64>,
    /// The regime of the most recent fault: zero for none, two for storage,
    /// three for process, one for anything else.
    pub fault_regime: u8,
    /// Each node's highest compaction floor.
    pub floor_by_node: OrdMap<u64, u64>,
    pub leaders_seen: u64,
    /// Where the second election stands in the run's order.
    pub second_leader_seq: Option<u64>,
    pub max_ack_seq: Option<u64>,
    /// A no-op gap fill reached the application.
    pub noop_applied: bool,
    pub safety_only: bool,
}

pub struct AgreementView {
    pub submitted: Map<u64, u64>,
    pub states: Map<u64, u64>,
    pub commands: Map<u64, u64>,
    pub node_index: Map<u64, u64>,
    pub latest_leader: Option<u64>,
    pub fault_regime: u8,
    pub floors: Map<u64, u64>,
    pub leaders_seen: u64,
    pub second_leader_seq: Option<u64>,
    pub max_ack_seq: Option<u64>,
    pub noop_applied: bool,
    pub safety_only: bool,
}

impl View for ChainAgreement {
    type V = AgreementView;

    open spec fn view(&self) -> AgreementView {
        AgreementView {
            submitted: self.submitted@,
            states: self.state_by_index@,
            commands: self.command_by_index@,
            node_index: self.node_index@,
            latest_leader: self.latest_leader,
            fault_regime: self.fault_regime,
            floors: self.floor_by_node@,
            leaders_seen: self.leaders_seen,
            second_leader_seq: self.second_leader_seq,
            max_ack_seq: self.max_ack_seq,
            noop_applied: self.noop_applied,
            safety_only: self.safety_only,
        }
    }
}

/// `map` with `value` under `key`, unless something already stands there.
pub open spec fn keep_first(map: Map<u64, u64>, key: u64, value: u64) -> Map<u64, u64> {
    if map.contains_key(key) {
        map
    } else {
        map.insert(key, value)
    }
}

/// Something other than `value` already stands under `key`.
pub open spec fn contradicts(map: Map<u64, u64>, key: u64, value: u64) -> bool {
    map.contains_key(key) && map[key] != value
}

pub open spec fn larger(a: Option<u64>, b: u64) -> u64 {
    match a {
        Some(a) if a > b => a,
        _ => b,
    }
}

impl AgreementView {
    pub open spec fn blank(safety_only: bool) -> AgreementView {
        AgreementView {
            submitted: Map::empty(),
            states: Map::empty(),
            commands: Map::empty(),
            node_index: Map::empty(),
            latest_leader: None,
            fault_regime: 0,
            floors: Map::empty(),
            leaders_seen: 0,
            second_leader_seq: None,
            max_ack_seq: None,
            noop_applied: false,
            safety_only,
        }
    }

    /// The applied index a node's next transition must have.
    pub open spec fn expected_index(self, node: u64) -> u64 {
        if !self.node_index.contains_key(node) {
            1
        } else if self.node_index[node] == u64::MAX {
            u64::MAX
        } else {
            (self.node_index[node] + 1) as u64
        }
    }

    /// The state after one fact.
    pub open spec fn after(self, event: ChainEvent) -> AgreementView {
        match event.fact {
            ChainFact::Submitted { command: Some(command) } => AgreementView {
                submitted: keep_first(self.submitted, command, event.seq),
                ..self
            },
            ChainFact::Leader { node } => AgreementView {
                latest_leader: node,
                leaders_seen: (self.leaders_seen + 1) as u64,
                second_leader_seq: if self.leaders_seen == 1 {
                    Some(event.seq)
                } else {
                    self.second_leader_seq
                },
                ..self
            },
            ChainFact::Fault { regime: Some(regime) } => AgreementView {
                fault_regime: regime,
                ..self
            },
            ChainFact::Compacted { node: Some(node), first: Some(first) } => AgreementView {
                floors: self.floors.insert(
                    node,
                    larger(
                        if self.floors.contains_key(node) {
                            Some(self.floors[node])
                        } else {
                            None
                        },
                        first,
                    ),
                ),
                ..self
            },
            ChainFact::Acked => AgreementView {
                max_ack_seq: Some(larger(self.max_ack_seq, event.seq)),
                ..self
            },
            ChainFact::Snapshot { node: Some(node), index: Some(index), state: Some(state) } =>
                AgreementView {
                node_index: self.node_index.insert(node, index),
                states: keep_first(self.states, index, state),
                ..self
            },
            ChainFact::Reset { node: Some(node) } => AgreementView {
                node_index: self.node_index.remove(node),
                ..self
            },
            ChainFact::Applied { node, index, state, command, kind, slot } => {
                let noted = AgreementView {
                    noop_applied: self.noop_applied || kind == Some(CommandKind::Noop),
                    ..self
                };
                match (node, index, state) {
                    (Some(node), Some(index), Some(state)) => {
                        let moved = AgreementView {
                            node_index: noted.node_index.insert(node, index),
                            ..noted
                        };
                        match command {
                            Some(command) => AgreementView {
                                commands: keep_first(moved.commands, index, command),
                                states: keep_first(moved.states, index, state),
                                ..moved
                            },
                            None => moved,
                        }
                    },
                    _ => noted,
                }
            },
            _ => self,
        }
    }

    /// What one fact violates.
    pub open spec fn violated(self, event: ChainEvent) -> Violations {
        match event.fact {
            ChainFact::Snapshot { node: Some(node), index: Some(index), state: Some(state) } =>
                Violations {
                backward_jump: self.node_index.contains_key(node) && index < self.node_index[node],
                disagreement: contradicts(self.states, index, state),
                gap: false,
                unproposed: false,
            },
            ChainFact::Applied {
                node: Some(node),
                index: Some(index),
                state: Some(state),
                command,
                kind,
                slot,
            } => Violations {
                backward_jump: false,
                disagreement: command matches Some(command) && (contradicts(
                    self.commands,
                    index,
                    command,
                ) || contradicts(self.states, index, state)),
                gap: index != self.expected_index(node),
                unproposed: command matches Some(command) && kind == Some(CommandKind::User)
                    && !self.proposed_before(command, event.seq),
            },
            _ => Violations::none(),
        }
    }

    pub open spec fn proposed_before(self, command: u64, seq: u64) -> bool {
        self.submitted.contains_key(command) && self.submitted[command] < seq
    }

    /// Where a transition stands, for the coverage frontier.
    pub open spec fn frontier(self, event: ChainEvent) -> Option<Frontier> {
        match event.fact {
            ChainFact::Applied {
                node: Some(node),
                index: Some(index),
                state: Some(state),
                command: Some(command),
                kind,
                slot,
            } => Some(
                Frontier {
                    leads: self.latest_leader == Some(node),
                    fault: self.fault_regime,
                    floor: match slot {
                        Some(slot) if self.floors.contains_key(node) => if slot
                            >= self.floors[node] {
                            1
                        } else {
                            2
                        },
                        _ => 0,
                    },
                    applied_count: index,
                },
            ),
            _ => None,
        }
    }

    pub open spec fn after_all(self, events: Seq<ChainEvent>) -> AgreementView
        decreases events.len(),
    {
        if events.len() == 0 {
            self
        } else {
            self.after_all(events.drop_last()).after(events.last())
        }
    }

    pub open spec fn violated_by_all(self, events: Seq<ChainEvent>) -> Violations
        decreases events.len(),
    {
        if events.len() == 0 {
            Violations::none()
        } else {
            self.violated_by_all(events.drop_last()).or(
                self.after_all(events.drop_last()).violated(events.last()),
            )
        }
    }

    /// The transitions' places, each as of the facts before it.
    pub open spec fn frontiers_of_all(self, events: Seq<ChainEvent>) -> Seq<Frontier>
        decreases events.len(),
    {
        if events.len() == 0 {
            seq![]
        } else {
            let before = self.frontiers_of_all(events.drop_last());
            match self.after_all(events.drop_last()).frontier(events.last()) {
                Some(frontier) => before.push(frontier),
                None => before,
            }
        }
    }

    /// The oracle after a batch: the submissions first, then the rest in the
    /// run's order.
    pub open spec fn after_batch(
        self,
        submitted: Seq<ChainEvent>,
        events: Seq<ChainEvent>,
    ) -> AgreementView {
        self.after_all(submitted).after_all(in_run_order(events))
    }

    pub open spec fn violated_by_batch(
        self,
        submitted: Seq<ChainEvent>,
        events: Seq<ChainEvent>,
    ) -> Violations {
        self.violated_by_all(submitted).or(
            self.after_all(submitted).violated_by_all(in_run_order(events)),
        )
    }

    pub open spec fn frontiers_of_batch(
        self,
        submitted: Seq<ChainEvent>,
        events: Seq<ChainEvent>,
    ) -> Seq<Frontier> {
        self.frontiers_of_all(submitted) + self.after_all(submitted).frontiers_of_all(
            in_run_order(events),
        )
    }

    /// The campaign's coverage gates, given how many facts each stream holds.
    pub open spec fn campaign_gates(self, counts: StreamCounts) -> CampaignGates {
        if self.safety_only {
            CampaignGates::SafetyOnly { noop_applied: self.noop_applied }
        } else {
            CampaignGates::Campaign {
                acknowledged_after_change: self.acked_after_change(),
                compaction_took_effect: counts.compact_accepted != 0 && counts.compacted != 0,
                snapshot_installed: counts.snapshot_installed != 0,
                old_leader_gone: counts.resigned != 0 || counts.crashed != 0 || counts.relinquished
                    != 0,
                new_leader_elected: self.leaders_seen >= 2,
            }
        }
    }

    /// A proposal succeeded after the leader changed.
    pub open spec fn acked_after_change(self) -> bool {
        self.second_leader_seq matches Some(changed) && (self.max_ack_seq matches Some(ack) && ack
            > changed)
    }
}

/// The order of a run's facts: by sequence, ties in the order given.
pub open spec fn placed_event(list: Seq<ChainEvent>, event: ChainEvent) -> Seq<ChainEvent>
    decreases list.len(),
{
    if list.len() == 0 {
        seq![event]
    } else if event.seq < list.last().seq {
        placed_event(list.drop_last(), event).push(list.last())
    } else {
        list.push(event)
    }
}

pub open spec fn in_run_order(events: Seq<ChainEvent>) -> Seq<ChainEvent>
    decreases events.len(),
{
    if events.len() == 0 {
        seq![]
    } else {
        placed_event(in_run_order(events.drop_last()), events.last())
    }
}

/// Merge the streams' facts into the run's order.
pub fn merged(events: &Vec<ChainEvent>) -> (ordered: Vec<ChainEvent>)
    ensures
        ordered@ == in_run_order(events@),
{
    let mut ordered: Vec<ChainEvent> = Vec::new();
    let mut i: usize = 0;
    assert(events@.take(0) =~= Seq::<ChainEvent>::empty());
    while i < events.len()
        invariant
            i <= events@.len(),
            ordered@ == in_run_order(events@.take(i as int)),
        decreases events@.len() - i,
    {
        let event = events[i];
        proof {
            assert(events@.take(i + 1).drop_last() =~= events@.take(i as int));
            assert(events@.take(i + 1).last() == event);
        }
        let ghost before = ordered@;
        let mut at = ordered.len();
        while at > 0 && event.seq < ordered[at - 1].seq
            invariant
                at <= ordered@.len(),
                ordered@ == before,
                forall|j: int| at <= j < ordered@.len() ==> event.seq < (#[trigger] ordered@[j]).seq,
            decreases at,
        {
            at = at - 1;
        }
        ordered.insert(at, event);
        proof {
            lemma_placed_event(before, event, at as int);
        }
        i = i + 1;
    }
    assert(events@.take(i as int) =~= events@);
    ordered
}

proof fn lemma_placed_event(list: Seq<ChainEvent>, event: ChainEvent, at: int)
    requires
        0 <= at <= list.len(),
        forall|j: int| at <= j < list.len() ==> event.seq < (#[trigger] list[j]).seq,
        at > 0 ==> !(event.seq < list[at - 1].seq),
    ensures
        placed_event(list, event) == list.insert(at, event),
    decreases list.len(),
{
    if list.len() == 0 {
        assert(list.insert(at, event) =~= seq![event]);
    } else if at < list.len() {
        let front = list.drop_last();
        assert(list[list.len() - 1] == list.last());
        assert forall|j: int| at <= j < front.len() implies event.seq < (
        #[trigger] front[j]).seq by {
            assert(front[j] == list[j]);
        }
        if at > 0 {
            assert(front[at - 1] == list[at - 1]);
        }
        lemma_placed_event(front, event, at);
        assert(list.insert(at, event) =~= front.insert(at, event).push(list.last()));
    } else {
        assert(list.insert(at, event) =~= list.push(event));
    }
}

/// `word` occurs somewhere in `text`.
pub open spec fn occurs_in(text: Seq<char>, word: Seq<char>) -> bool {
    exists|i: int|
        0 <= i && i + word.len() <= text.len() && #[trigger] text.subrange(i, i + word.len())
            == word
}

/// The regime of a fault by its kind's name.
pub open spec fn regime_of(kind: Seq<char>) -> u8 {
    if occurs_in(kind, "storage"@) {
        2
    } else if occurs_in(kind, "process"@) {
        3
    } else {
        1
    }
}

fn contains_word(text: &str, word: &str) -> (found: bool)
    ensures
        found == occurs_in(text@, word@),
{
    let n = text.unicode_len();
    let m = word.unicode_len();
    if m > n {
        return false;
    }
    let mut i: usize = 0;
    while i <= n - m
        invariant
            n == text@.len(),
            m == word@.len(),
            m <= n,
            i <= n - m,
            forall|k: int| 0 <= k < i ==> #[trigger] text@.subrange(k, k + m) != word@,
        decreases n - m - i,
    {
        let mut j: usize = 0;
        let mut same = true;
        while j < m && same
            invariant
                n == text@.len(),
                m == word@.len(),
                i + m <= n,
                j <= m,
                same ==> forall|k: int| 0 <= k < j ==> #[trigger] text@[i + k] == word@[k],
                !same ==> text@.subrange(i as int, i + m) != word@,
            decreases m - j + if same { 1int } else { 0int },
        {
            if text.get_char(i + j) != word.get_char(j) {
                same = false;
                proof {
                    assert(text@.subrange(i as int, i + m)[j as int] == text@[i + j]);
                }
            } else {
                j = j + 1;
            }
        }
        if same {
            proof {
                assert forall|k: int| 0 <= k < m implies text@.subrange(i as int, i + m)[k]
                    == word@[k] by {
                    assert(text@[i + k] == word@[k]);
                }
                assert(text@.subrange(i as int, i + m) =~= word@);
            }
            return true;
        }
        if i == n - m {
            return false;
        }
        i = i + 1;
    }
    false
}

/// The coverage gates of a campaign.
#[derive(Clone, Copy, Debug, PartialEq, Eq, Structural)]
pub enum CampaignGates {
    /// The safety-only flavour asks for no progress; it notes only that a gap
    /// fill was applied.
    SafetyOnly { noop_applied: bool },
    Campaign {
        acknowledged_after_change: bool,
        compaction_took_effect: bool,
        snapshot_installed: bool,
        old_leader_gone: bool,
        new_leader_elected: bool,
    },
}

/// How many facts each of the counted streams holds.
#[derive(Clone, Copy, Debug, PartialEq, Eq, Structural)]
pub struct StreamCounts {
    pub compact_accepted: usize,
    pub compacted: usize,
    pub snapshot_installed: usize,
    pub resigned: usize,
    pub crashed: usize,
    pub relinquished: usize,
}

impl ChainAgreement {
    fn blank(safety_only: bool) -> (oracle: ChainAgreement)
        ensures
            oracle@ == AgreementView::blank(safety_only),
    {
        ChainAgreement {
            submitted: OrdMap::new(),
            state_by_index: OrdMap::new(),
            command_by_index: OrdMap::new(),
            node_index: OrdMap::new(),
            latest_leader: None,
            fault_regime: 0,
            floor_by_node: OrdMap::new(),
            leaders_seen: 0,
            second_leader_seq: None,
            max_ack_seq: None,
            noop_applied: false,
            safety_only,
        }
    }

    pub fn new() -> (oracle: ChainAgreement)
        ensures
            oracle@ == AgreementView::blank(false),
    {
        ChainAgreement::blank(false)
    }

    /// The flavour that keeps every agreement check and drops the liveness
    /// gates.
    pub fn safety_only() -> (oracle: ChainAgreement)
        ensures
            oracle@ == AgreementView::blank(true),
    {
        ChainAgreement::blank(true)
    }

    /// Forget everything but the flavour.
    pub fn reset(&mut self)
        ensures
            final(self)@ == AgreementView::blank(old(self)@.safety_only),
    {
        *self = ChainAgreement::blank(self.safety_only);
    }

    /// The regime of a fault by its kind's name.
    pub fn fault_regime(kind: &str) -> (regime: u8)
        ensures
            regime == regime_of(kind@),
    {
        if contains_word(kind, "storage") {
            2
        } else if contains_word(kind, "process") {
            3
        } else {
            1
        }
    }

    /// A snapshot install: it need not be contiguous, but it must never regress
    /// and must agree at its index.
    fn observe_snapshot(&mut self, seq: u64, node: u64, index: u64, state: u64) -> (violations:
        Violations)
        ensures
            ({
                let event = ChainEvent {
                    seq,
                    fact: ChainFact::Snapshot {
                        node: Some(node),
                        index: Some(index),
                        state: Some(state),
                    },
                };
                &&& final(self)@ == old(self)@.after(event)
                &&& violations == old(self)@.violated(event)
            }),
    {
        let backward_jump = match self.node_index.get(node) {
            Some(previous) => index < *previous,
            None => false,
        };
        self.node_index.insert(node, index);
        let disagreement = settle(&mut self.state_by_index, index, state);
        Violations { backward_jump, disagreement, gap: false, unproposed: false }
    }

    /// One application transition: contiguous locally, agreeing cluster-wide,
    /// and only ever a command somebody proposed.
    fn observe_applied(
        &mut self,
        seq: u64,
        node: u64,
        index: u64,
        state: u64,
        command: Option<u64>,
        kind: Option<CommandKind>,
        slot: Option<u64>,
    ) -> (violations: Violations)
        ensures
            ({
                let event = ChainEvent {
                    seq,
                    fact: ChainFact::Applied {
                        node: Some(node),
                        index: Some(index),
                        state: Some(state),
                        command,
                        kind,
                        slot,
                    },
                };
                &&& final(self)@ == old(self)@.after(event)
                &&& violations == old(self)@.violated(event)
            }),
    {
        if kind == Some(CommandKind::Noop) {
            self.noop_applied = true;
        }
        let expected = match self.node_index.get(node) {
            Some(previous) => if *previous == u64::MAX {
                u64::MAX
            } else {
                *previous + 1
            },
            None => 1,
        };
        let gap = index != expected;
        self.node_index.insert(node, index);
        match command {
            Some(command) => {
                let other_command = settle(&mut self.command_by_index, index, command);
                let other_state = settle(&mut self.state_by_index, index, state);
                let proposed = match self.submitted.get(command) {
                    Some(submitted) => *submitted < seq,
                    None => false,
                };
                Violations {
                    backward_jump: false,
                    disagreement: other_command || other_state,
                    gap,
                    unproposed: kind == Some(CommandKind::User) && !proposed,
                }
            },
            None => Violations {
                backward_jump: false,
                disagreement: false,
                gap,
                unproposed: false,
            },
        }
    }

    /// Fold one fact in; what it violates.
    pub fn observe(&mut self, event: ChainEvent) -> (violations: Violations)
        requires
            old(self)@.leaders_seen < u64::MAX,
        ensures
            final(self)@ == old(self)@.after(event),
            violations == old(self)@.violated(event),
    {
        match event.fact {
            ChainFact::Submitted { command } => {
                if let Some(command) = command {
                    settle(&mut self.submitted, command, event.seq);
                }
            },
            ChainFact::Leader { node } => {
                self.latest_leader = node;
                if self.leaders_seen == 1 {
                    self.second_leader_seq = Some(event.seq);
                }
                self.leaders_seen = self.leaders_seen + 1;
            },
            ChainFact::Fault { regime } => {
                if let Some(regime) = regime {
                    self.fault_regime = regime;
                }
            },
            ChainFact::Compacted { node, first } => {
                if let Some(node) = node {
                    if let Some(first) = first {
                        let floor = match self.floor_by_node.get(node) {
                            Some(floor) => if *floor > first {
                                *floor
                            } else {
                                first
                            },
                            None => first,
                        };
                        self.floor_by_node.insert(node, floor);
                    }
                }
            },
            ChainFact::Acked => {
                let seq = match self.max_ack_seq {
                    Some(max) => if max > event.seq {
                        max
                    } else {
                        event.seq
                    },
                    None => event.seq,
                };
                self.max_ack_seq = Some(seq);
            },
            ChainFact::Snapshot { node, index, state } => {
                if let (Some(node), Some(index), Some(state)) = (node, index, state) {
                    return self.observe_snapshot(event.seq, node, index, state);
                }
            },
            ChainFact::Reset { node } => {
                if let Some(node) = node {
                    self.node_index.remove(node);
                }
            },
            ChainFact::Applied { node, index, state, command, kind, slot } => {
                if let (Some(node), Some(index), Some(state)) = (node, index, state) {
                    return self.observe_applied(
                        event.seq,
                        node,
                        index,
                        state,
                        command,
                        kind,
                        slot,
                    );
                }
                if kind == Some(CommandKind::Noop) {
                    self.noop_applied = true;
                }
            },
        }
        Violations { backward_jump: false, disagreement: false, gap: false, unproposed: false }
    }

    /// Where a transition stands, before it is folded in.
    pub fn frontier(&self, event: ChainEvent) -> (frontier: Option<Frontier>)
        ensures
            frontier == self@.frontier(event),
    {
        match event.fact {
            ChainFact::Applied {
                node: Some(node),
                index: Some(index),
                state: Some(_),
                command: Some(_),
                kind: _,
                slot,
            } => {
                let floor = match self.floor_by_node.get(node) {
                    Some(first) => match slot {
                        Some(slot) => if slot >= *first {
                            1
                        } else {
                            2
                        },
                        None => 0,
                    },
                    None => 0,
                };
                Some(
                    Frontier {
                        leads: self.latest_leader == Some(node),
                        fault: self.fault_regime,
                        floor,
                        applied_count: index,
                    },
                )
            },
            _ => None,
        }
    }

    /// Fold facts in, in the order given.
    fn observe_all(&mut self, events: &Vec<ChainEvent>) -> (report: Report)
        requires
            old(self)@.leaders_seen + events@.len() <= u64::MAX,
        ensures
            final(self)@ == old(self)@.after_all(events@),
            final(self)@.leaders_seen <= old(self)@.leaders_seen + events@.len(),
            report.violations == old(self)@.violated_by_all(events@),
            report.frontiers@ == old(self)@.frontiers_of_all(events@),
    {
        let mut violations = Violations {
            backward_jump: false,
            disagreement: false,
            gap: false,
            unproposed: false,
        };
        let mut frontiers: Vec<Frontier> = Vec::new();
        let mut i: usize = 0;
        assert(events@.take(0) =~= Seq::<ChainEvent>::empty());
        while i < events.len()
            invariant
                i <= events@.len(),
                old(self)@.leaders_seen + events@.len() <= u64::MAX,
                self@ == old(self)@.after_all(events@.take(i as int)),
                self@.leaders_seen <= old(self)@.leaders_seen + i,
                violations == old(self)@.violated_by_all(events@.take(i as int)),
                frontiers@ == old(self)@.frontiers_of_all(events@.take(i as int)),
            decreases events@.len() - i,
        {
            proof {
                assert(events@.take(i + 1).drop_last() =~= events@.take(i as int));
                assert(events@.take(i + 1).last() == events@[i as int]);
            }
            if let Some(frontier) = self.frontier(events[i]) {
                frontiers.push(frontier);
            }
            let found = self.observe(events[i]);
            violations = Violations {
                backward_jump: violations.backward_jump || found.backward_jump,
                disagreement: violations.disagreement || found.disagreement,
                gap: violations.gap || found.gap,
                unproposed: violations.unproposed || found.unproposed,
            };
            i = i + 1;
        }
        assert(events@.take(i as int) =~= events@);
        Report { violations, frontiers }
    }

    /// Fold in what arrived since the last batch: the submissions first, in the
    /// order given, then everything else in the run's order.
    pub fn observe_batch(&mut self, submitted: &Vec<ChainEvent>, events: &Vec<ChainEvent>) -> (report:
        Report)
        requires
            old(self)@.leaders_seen + submitted@.len() + events@.len() <= u64::MAX,
        ensures
            final(self)@ == old(self)@.after_batch(submitted@, events@),
            report.violations == old(self)@.violated_by_batch(submitted@, events@),
            report.frontiers@ == old(self)@.frontiers_of_batch(submitted@, events@),
    {
        let ordered = merged(events);
        proof {
            law_run_order_sorts(events@);
        }
        let first = self.observe_all(submitted);
        let second = self.observe_all(&ordered);
        let mut frontiers = first.frontiers;
        let mut more = second.frontiers;
        frontiers.append(&mut more);
        Report {
            violations: Violations {
                backward_jump: first.violations.backward_jump || second.violations.backward_jump,
                disagreement: first.violations.disagreement || second.violations.disagreement,
                gap: first.violations.gap || second.violations.gap,
                unproposed: first.violations.unproposed || second.violations.unproposed,
            },
            frontiers,
        }
    }

    /// The campaign's coverage gates. A leader is gone however it stopped being
    /// one: it resigned, it crashed, or it handed its authority over.
    pub fn check_campaign_gates(&self, counts: StreamCounts) -> (gates: CampaignGates)
        ensures
            gates == self@.campaign_gates(counts),
    {
        if self.safety_only {
            return CampaignGates::SafetyOnly { noop_applied: self.noop_applied };
        }
        let acknowledged_after_change = match (self.second_leader_seq, self.max_ack_seq) {
            (Some(changed), Some(ack)) => ack > changed,
            _ => false,
        };
        CampaignGates::Campaign {
            acknowledged_after_change,
            compaction_took_effect: counts.compact_accepted != 0 && counts.compacted != 0,
            snapshot_installed: counts.snapshot_installed != 0,
            old_leader_gone: counts.resigned != 0 || counts.crashed != 0 || counts.relinquished
                != 0,
            new_leader_elected: self.leaders_seen >= 2,
        }
    }
}

/// Put `value` under `key` unless something stands there; whether something
/// else does.
fn settle(map: &mut OrdMap<u64, u64>, key: u64, value: u64) -> (contradicted: bool)
    ensures
        final(map)@ == keep_first(old(map)@, key, value),
        contradicted == contradicts(old(map)@, key, value),
{
    match map.get(key) {
        Some(prior) => *prior != value,
        None => {
            map.insert(key, value);
            false
        },
    }
}

/// Once an applied index has a state, no later fact changes it.
pub proof fn law_states_are_settled_once(v: AgreementView, event: ChainEvent, index: u64)
    requires
        v.states.contains_key(index),
    ensures
        v.after(event).states.contains_key(index),
        v.after(event).states[index] == v.states[index],
{
}

/// A fact that applied `state` at `index`: a transition naming its command, or
/// a snapshot install.
pub open spec fn applies(event: ChainEvent, index: u64, state: u64) -> bool {
    match event.fact {
        ChainFact::Applied { node, index: i, state: s, command, kind, slot } => node is Some && i
            == Some(index) && s == Some(state) && command is Some,
        ChainFact::Snapshot { node, index: i, state: s } => node is Some && i == Some(index) && s
            == Some(state),
        _ => false,
    }
}

/// Agreement: a run judged free of disagreement has one state per applied
/// index. Any two facts of it that applied at one index applied the same
/// state.
pub proof fn law_one_state_per_applied_index(
    v: AgreementView,
    events: Seq<ChainEvent>,
    i: int,
    j: int,
    index: u64,
    first: u64,
    second: u64,
)
    requires
        !v.violated_by_all(events).disagreement,
        0 <= i < events.len(),
        0 <= j < events.len(),
        applies(events[i], index, first),
        applies(events[j], index, second),
    ensures
        first == second,
{
    lemma_applied_state(v, events, i, index, first);
    lemma_applied_state(v, events, j, index, second);
}

proof fn lemma_applied_state(
    v: AgreementView,
    events: Seq<ChainEvent>,
    i: int,
    index: u64,
    state: u64,
)
    requires
        !v.violated_by_all(events).disagreement,
        0 <= i < events.len(),
        applies(events[i], index, state),
    ensures
        v.after_all(events).states.contains_key(index),
        v.after_all(events).states[index] == state,
    decreases events.len(),
{
    let front = events.drop_last();
    if i < front.len() {
        assert(front[i] == events[i]);
        lemma_applied_state(v, front, i, index, state);
        law_states_are_settled_once(v.after_all(front), events.last(), index);
    } else {
        assert(events[i] == events.last());
    }
}

/// A transition that applied `command` at `index`.
pub open spec fn applies_command(event: ChainEvent, index: u64, command: u64) -> bool {
    event.fact matches ChainFact::Applied { node, index: i, state, command: c, kind, slot } && node
        is Some && i == Some(index) && state is Some && c == Some(command)
}

/// Agreement on commands: a run judged free of disagreement applied one command
/// at each index, whichever nodes applied it.
pub proof fn law_one_command_per_applied_index(
    v: AgreementView,
    events: Seq<ChainEvent>,
    i: int,
    j: int,
    index: u64,
    first: u64,
    second: u64,
)
    requires
        !v.violated_by_all(events).disagreement,
        0 <= i < events.len(),
        0 <= j < events.len(),
        applies_command(events[i], index, first),
        applies_command(events[j], index, second),
    ensures
        first == second,
{
    lemma_applied_command(v, events, i, index, first);
    lemma_applied_command(v, events, j, index, second);
}

proof fn lemma_applied_command(
    v: AgreementView,
    events: Seq<ChainEvent>,
    i: int,
    index: u64,
    command: u64,
)
    requires
        !v.violated_by_all(events).disagreement,
        0 <= i < events.len(),
        applies_command(events[i], index, command),
    ensures
        v.after_all(events).commands.contains_key(index),
        v.after_all(events).commands[index] == command,
    decreases events.len(),
{
    let front = events.drop_last();
    if i < front.len() {
        assert(front[i] == events[i]);
        lemma_applied_command(v, front, i, index, command);
    } else {
        assert(events[i] == events.last());
    }
}

/// A fact that applied a client's command.
pub open spec fn applies_user(event: ChainEvent, command: u64) -> bool {
    event.fact matches ChainFact::Applied { node, index, state, command: c, kind, slot } && {
        &&& node is Some && index is Some && state is Some
        &&& c == Some(command)
        &&& kind == Some(CommandKind::User)
    }
}

/// Every client command a sound run applied was proposed before it was
/// applied.
pub proof fn law_applied_command_was_proposed(
    v: AgreementView,
    events: Seq<ChainEvent>,
    i: int,
    command: u64,
)
    requires
        !v.violated_by_all(events).unproposed,
        0 <= i < events.len(),
        applies_user(events[i], command),
    ensures
        v.after_all(events.take(i)).proposed_before(command, events[i].seq),
    decreases events.len(),
{
    let front = events.drop_last();
    if i < front.len() {
        assert(front[i] == events[i]);
        assert(front.take(i) =~= events.take(i));
        law_applied_command_was_proposed(v, front, i, command);
    } else {
        assert(events.take(i) =~= front);
    }
}

/// The node a fact moves in its applied order, if any.
pub open spec fn moves(event: ChainEvent, node: u64) -> bool {
    match event.fact {
        ChainFact::Applied { node: n, index, state, command, kind, slot } => n == Some(node),
        ChainFact::Snapshot { node: n, index, state } => n == Some(node),
        ChainFact::Reset { node: n } => n == Some(node),
        _ => false,
    }
}

/// A fact that moved `node` to `index` by an ordinary transition.
pub open spec fn applies_at(event: ChainEvent, node: u64, index: u64) -> bool {
    event.fact matches ChainFact::Applied { node: n, index: i, state, command, kind, slot } && n
        == Some(node) && i == Some(index) && state is Some
}

proof fn lemma_index_stands(v: AgreementView, events: Seq<ChainEvent>, node: u64, i: int, j: int, index: u64)
    requires
        0 <= i < j <= events.len(),
        applies_at(events[i], node, index),
        forall|k: int| i < k < j ==> !moves(#[trigger] events[k], node),
    ensures
        v.after_all(events.take(j)).node_index.contains_key(node),
        v.after_all(events.take(j)).node_index[node] == index,
    decreases j,
{
    let run = events.take(j);
    assert(run.drop_last() =~= events.take(j - 1));
    assert(run.last() == events[j - 1]);
    if j > i + 1 {
        lemma_index_stands(v, events, node, i, j - 1, index);
        assert(!moves(events[j - 1], node));
    }
}

proof fn lemma_no_gap_before(v: AgreementView, events: Seq<ChainEvent>, j: int)
    requires
        !v.violated_by_all(events).gap,
        0 <= j < events.len(),
    ensures
        !v.after_all(events.take(j)).violated(events[j]).gap,
    decreases events.len(),
{
    let front = events.drop_last();
    if j < front.len() {
        assert(front[j] == events[j]);
        assert(front.take(j) =~= events.take(j));
        lemma_no_gap_before(v, front, j);
    } else {
        assert(events.take(j) =~= front);
    }
}

/// Contiguity: in a sound run, two transitions of one node with no other fact of
/// that node between them are one applied index apart. Only a snapshot jump or
/// a reset moves it otherwise.
pub proof fn law_applies_are_contiguous(
    v: AgreementView,
    events: Seq<ChainEvent>,
    node: u64,
    i: int,
    j: int,
    index: u64,
    following: u64,
)
    requires
        !v.violated_by_all(events).gap,
        0 <= i < j < events.len(),
        applies_at(events[i], node, index),
        applies_at(events[j], node, following),
        forall|k: int| i < k < j ==> !moves(#[trigger] events[k], node),
        index < u64::MAX,
    ensures
        following == index + 1,
{
    lemma_index_stands(v, events, node, i, j, index);
    lemma_no_gap_before(v, events, j);
}

/// A reset node re-walks its states from the start: its next transition is the
/// first, and what is already settled at that index still binds it.
pub proof fn law_reset_restarts_the_walk(
    v: AgreementView,
    reset: ChainEvent,
    next: ChainEvent,
    node: u64,
    index: u64,
    state: u64,
    command: u64,
)
    requires
        reset.fact == (ChainFact::Reset { node: Some(node) }),
        next.fact is Applied,
        next.fact->Applied_node == Some(node),
        next.fact->Applied_index == Some(index),
        next.fact->Applied_state == Some(state),
        next.fact->Applied_command == Some(command),
    ensures
        v.after(reset).states == v.states,
        v.after(reset).violated(next).gap == (index != 1),
        v.after(reset).violated(next).disagreement == (contradicts(v.commands, index, command)
            || contradicts(v.states, index, state)),
{
}

/// The run's order is by sequence, and holds exactly the facts it was given.
pub proof fn law_run_order_sorts(events: Seq<ChainEvent>)
    ensures
        in_run_order(events).len() == events.len(),
        in_run_order(events).to_multiset() == events.to_multiset(),
        forall|i: int, j: int|
            0 <= i <= j < in_run_order(events).len() ==> (#[trigger] in_run_order(events)[i]).seq
                <= (#[trigger] in_run_order(events)[j]).seq,
    decreases events.len(),
{
    if events.len() > 0 {
        let front = events.drop_last();
        law_run_order_sorts(front);
        lemma_placed_event_sorts(in_run_order(front), events.last());
        lemma_placed_event_adds(in_run_order(front), events.last());
        assert(events =~= front.push(events.last()));
        front.to_multiset_ensures();
    } else {
        assert(events =~= in_run_order(events));
    }
}

proof fn lemma_placed_event_adds(list: Seq<ChainEvent>, event: ChainEvent)
    ensures
        placed_event(list, event).to_multiset() == list.to_multiset().insert(event),
    decreases list.len(),
{
    list.to_multiset_ensures();
    if list.len() > 0 && event.seq < list.last().seq {
        let front = list.drop_last();
        let inner = placed_event(front, event);
        lemma_placed_event_adds(front, event);
        assert(list =~= front.push(list.last()));
        front.to_multiset_ensures();
        inner.to_multiset_ensures();
        assert(placed_event(list, event).to_multiset() =~= list.to_multiset().insert(event));
    } else {
        assert(placed_event(list, event) =~= list.push(event));
    }
}

proof fn lemma_placed_event_sorts(list: Seq<ChainEvent>, event: ChainEvent)
    requires
        forall|i: int, j: int|
            0 <= i <= j < list.len() ==> (#[trigger] list[i]).seq <= (#[trigger] list[j]).seq,
    ensures
        placed_event(list, event).len() == list.len() + 1,
        forall|i: int, j: int|
            0 <= i <= j < placed_event(list, event).len() ==> (
            #[trigger] placed_event(list, event)[i]).seq <= (
            #[trigger] placed_event(list, event)[j]).seq,
        forall|i: int|
            0 <= i < placed_event(list, event).len() ==> (#[trigger] placed_event(
                list,
                event,
            )[i]).seq <= event.seq || exists|j: int|
                0 <= j < list.len() && (#[trigger] list[j]).seq == placed_event(
                    list,
                    event,
                )[i].seq,
    decreases list.len(),
{
    let out = placed_event(list, event);
    if list.len() == 0 {
    } else if event.seq < list.last().seq {
        let front = list.drop_last();
        let inner = placed_event(front, event);
        assert forall|i: int, j: int| 0 <= i <= j < front.len() implies (
        #[trigger] front[i]).seq <= (#[trigger] front[j]).seq by {
            assert(list[i].seq <= list[j].seq);
        }
        lemma_placed_event_sorts(front, event);
        assert forall|i: int| 0 <= i < inner.len() implies (#[trigger] inner[i]).seq
            <= list.last().seq by {
            if inner[i].seq > event.seq {
                let j = choose|j: int|
                    0 <= j < front.len() && (#[trigger] front[j]).seq == inner[i].seq;
                assert(list[j].seq <= list[list.len() - 1].seq);
            }
        }
        assert forall|i: int, j: int| 0 <= i <= j < out.len() implies (#[trigger] out[i]).seq <= (
        #[trigger] out[j]).seq by {
            if j < inner.len() {
                assert(out[i] == inner[i] && out[j] == inner[j]);
            } else if i < inner.len() {
                assert(out[i] == inner[i]);
            }
        }
        assert forall|i: int| 0 <= i < out.len() implies (#[trigger] out[i]).seq <= event.seq
            || exists|j: int| 0 <= j < list.len() && (#[trigger] list[j]).seq == out[i].seq by {
            if i < inner.len() {
                assert(out[i] == inner[i]);
                if inner[i].seq > event.seq {
                    let j = choose|j: int|
                        0 <= j < front.len() && (#[trigger] front[j]).seq == inner[i].seq;
                    assert(list[j].seq == out[i].seq);
                }
            } else {
                assert(list[list.len() - 1].seq == out[i].seq);
            }
        }
    } else {
        assert forall|i: int, j: int| 0 <= i <= j < out.len() implies (#[trigger] out[i]).seq <= (
        #[trigger] out[j]).seq by {
            if j < list.len() {
                assert(list[i].seq <= list[j].seq);
            } else if i < list.len() {
                assert(list[i].seq <= list[list.len() - 1].seq);
            }
        }
        assert forall|i: int| 0 <= i < out.len() implies (#[trigger] out[i]).seq <= event.seq
            || exists|j: int| 0 <= j < list.len() && (#[trigger] list[j]).seq == out[i].seq by {
            if i < list.len() {
                assert(list[i].seq == out[i].seq);
            }
        }
    }
}

} // verus!
