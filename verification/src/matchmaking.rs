//! The client side of matchmaking: a client acting as a proposer, which shapes
//! its requests and judges every answer against what the same matchmaker told
//! it before.
//!
//! It mints ballots under one proposer identity, registers the acceptor
//! configuration under them, and deliberately walks every refusal: the same
//! request again, the same ballot with other bytes, a ballot below its last one
//! and a request below a watermark it raised. A refusal's payload is judged and
//! never used: the next ballot comes from the client's own counter.
use crate::ordered::{ascending, lemma_walk, lists, walked, MapKey, OrdMap};
use crate::records::Ballot;
use vstd::prelude::*;

verus! {

/// Proposer identities sit above the acceptor id space, so a client's ballot is
/// never mistaken for a node's campaign ballot.
pub const PROPOSER_ID_BASE: u64 = 100;

/// One registration: the ballot, and the hash of its configuration.
#[derive(Clone, Copy, Debug, PartialEq, Eq, Structural)]
pub struct Row {
    pub ballot: Ballot,
    pub hash: u64,
}

/// A matchmaker's answer.
#[derive(Debug, PartialEq, Eq)]
pub enum MatchOutcome {
    Registered { history: Vec<Row>, gc_watermark: Ballot },
    Stale { highest: Ballot },
    BelowWatermark { watermark: Ballot },
}

/// An answer with the request it echoes.
#[derive(Debug, PartialEq, Eq)]
pub struct MatchReply {
    pub ballot: Ballot,
    pub to: u64,
    pub outcome: MatchOutcome,
}

/// What an answer violates.
#[derive(Clone, Copy, Debug, PartialEq, Eq, Structural)]
pub struct MatchViolations {
    /// The reply does not echo its request.
    pub echo: bool,
    /// A history row at or above its ballot, or below its watermark.
    pub window: bool,
    /// The reported watermark went down.
    pub regressed: bool,
    /// The history misses one of the client's own registrations.
    pub missing: bool,
    /// One ballot was registered twice, with different bytes.
    pub twice: bool,
    /// A re-answer added history.
    pub grown: bool,
    /// A stale refusal names a ballot below the request.
    pub stale: bool,
    /// A below-watermark refusal names a watermark not above the request, or
    /// below one reported earlier.
    pub floor: bool,
}

impl MatchViolations {
    pub open spec fn none() -> MatchViolations {
        MatchViolations {
            echo: false,
            window: false,
            regressed: false,
            missing: false,
            twice: false,
            grown: false,
            stale: false,
            floor: false,
        }
    }

    pub open spec fn or(self, other: MatchViolations) -> MatchViolations {
        MatchViolations {
            echo: self.echo || other.echo,
            window: self.window || other.window,
            regressed: self.regressed || other.regressed,
            missing: self.missing || other.missing,
            twice: self.twice || other.twice,
            grown: self.grown || other.grown,
            stale: self.stale || other.stale,
            floor: self.floor || other.floor,
        }
    }

    fn clean() -> (violations: MatchViolations)
        ensures
            violations == MatchViolations::none(),
    {
        MatchViolations {
            echo: false,
            window: false,
            regressed: false,
            missing: false,
            twice: false,
            grown: false,
            stale: false,
            floor: false,
        }
    }

    fn joined(self, other: MatchViolations) -> (violations: MatchViolations)
        ensures
            violations == self.or(other),
    {
        MatchViolations {
            echo: self.echo || other.echo,
            window: self.window || other.window,
            regressed: self.regressed || other.regressed,
            missing: self.missing || other.missing,
            twice: self.twice || other.twice,
            grown: self.grown || other.grown,
            stale: self.stale || other.stale,
            floor: self.floor || other.floor,
        }
    }

    pub fn is_none(self) -> (none: bool)
        ensures
            none == (self == MatchViolations::none()),
    {
        !self.echo && !self.window && !self.regressed && !self.missing && !self.twice && !self.grown
            && !self.stale && !self.floor
    }
}

/// What the client knows about one matchmaker, from that matchmaker's own
/// replies.
pub struct Model {
    /// The ballots it registered, with the hash each carried.
    pub acked: OrdMap<Ballot, u64>,
    /// The history that the first reply for each ballot carried.
    pub first_history: OrdMap<Ballot, Vec<Row>>,
    /// The last watermark it reported.
    pub watermark: Ballot,
}

#[verifier::ext_equal]
pub struct ModelView {
    pub acked: Map<Ballot, u64>,
    pub first_history: Map<Ballot, Seq<Row>>,
    pub watermark: Ballot,
}

impl View for Model {
    type V = ModelView;

    open spec fn view(&self) -> ModelView {
        ModelView {
            acked: self.acked@,
            first_history: self.first_history@,
            watermark: self.watermark,
        }
    }
}

/// Every row lies below `ballot` and at or above `floor`.
pub open spec fn in_window(history: Seq<Row>, floor: Ballot, ballot: Ballot) -> bool {
    forall|i: int|
        0 <= i < history.len() ==> (#[trigger] history[i]).ballot.rank() < ballot.rank()
            && history[i].ballot.rank() >= floor.rank()
}

/// `history` holds every registration of `acked` at or above `floor` and below
/// `ballot`.
pub open spec fn covers_own(
    history: Seq<Row>,
    acked: Map<Ballot, u64>,
    floor: Ballot,
    ballot: Ballot,
) -> bool {
    forall|b: Ballot| #[trigger]
        acked.contains_key(b) && floor.rank() <= b.rank() < ballot.rank() ==> history.contains(
            Row { ballot: b, hash: acked[b] },
        )
}

/// Every row of `history` is one of `first`.
pub open spec fn at_most(history: Seq<Row>, first: Seq<Row>) -> bool {
    forall|i: int| 0 <= i < history.len() ==> first.contains(#[trigger] history[i])
}

impl ModelView {
    pub open spec fn fresh() -> ModelView {
        ModelView {
            acked: Map::empty(),
            first_history: Map::empty(),
            watermark: Ballot::lowest(),
        }
    }

    /// The model after an answer to the request (`ballot`, `hash`).
    pub open spec fn after(self, ballot: Ballot, hash: u64, outcome: MatchOutcome) -> ModelView {
        match outcome {
            MatchOutcome::Registered { history, gc_watermark } => if self.acked.contains_key(
                ballot,
            ) {
                ModelView { watermark: gc_watermark, ..self }
            } else {
                ModelView {
                    acked: self.acked.insert(ballot, hash),
                    first_history: self.first_history.insert(ballot, history@),
                    watermark: gc_watermark,
                }
            },
            MatchOutcome::Stale { highest } => self,
            MatchOutcome::BelowWatermark { watermark } => ModelView { watermark, ..self },
        }
    }

    /// What that answer violates.
    pub open spec fn violated(
        self,
        ballot: Ballot,
        hash: u64,
        outcome: MatchOutcome,
    ) -> MatchViolations {
        match outcome {
            MatchOutcome::Registered { history, gc_watermark } => MatchViolations {
                window: !in_window(history@, gc_watermark, ballot),
                regressed: gc_watermark.rank() < self.watermark.rank(),
                missing: !covers_own(history@, self.acked, gc_watermark, ballot),
                twice: self.acked.contains_key(ballot) && self.acked[ballot] != hash,
                grown: self.acked.contains_key(ballot) && self.first_history.contains_key(ballot)
                    && !at_most(history@, self.first_history[ballot]),
                ..MatchViolations::none()
            },
            MatchOutcome::Stale { highest } => MatchViolations {
                stale: highest.rank() < ballot.rank(),
                ..MatchViolations::none()
            },
            MatchOutcome::BelowWatermark { watermark } => MatchViolations {
                floor: !(watermark.rank() > ballot.rank() && watermark.rank()
                    >= self.watermark.rank()),
                ..MatchViolations::none()
            },
        }
    }
}

/// The answers that can be judged: a registration reports a watermark at or
/// below the ballot it registered.
pub open spec fn judgeable(ballot: Ballot, outcome: MatchOutcome) -> bool {
    outcome matches MatchOutcome::Registered { history, gc_watermark } ==> gc_watermark.rank()
        <= ballot.rank()
}

fn check_window(history: &Vec<Row>, floor: Ballot, ballot: Ballot) -> (held: bool)
    ensures
        held == in_window(history@, floor, ballot),
{
    let mut i: usize = 0;
    while i < history.len()
        invariant
            i <= history@.len(),
            forall|j: int|
                0 <= j < i ==> (#[trigger] history@[j]).ballot.rank() < ballot.rank()
                    && history@[j].ballot.rank() >= floor.rank(),
        decreases history@.len() - i,
    {
        let row = history[i];
        if !row.ballot.precedes(ballot) || row.ballot.precedes(floor) {
            return false;
        }
        i = i + 1;
    }
    true
}

fn holds_row(history: &Vec<Row>, row: Row) -> (held: bool)
    ensures
        held == history@.contains(row),
{
    let mut i: usize = 0;
    while i < history.len()
        invariant
            i <= history@.len(),
            forall|j: int| 0 <= j < i ==> #[trigger] history@[j] != row,
        decreases history@.len() - i,
    {
        if history[i] == row {
            assert(history@[i as int] == row);
            return true;
        }
        i = i + 1;
    }
    false
}

fn check_at_most(history: &Vec<Row>, first: &Vec<Row>) -> (held: bool)
    ensures
        held == at_most(history@, first@),
{
    let mut i: usize = 0;
    while i < history.len()
        invariant
            i <= history@.len(),
            forall|j: int| 0 <= j < i ==> first@.contains(#[trigger] history@[j]),
        decreases history@.len() - i,
    {
        if !holds_row(first, history[i]) {
            assert(!first@.contains(history@[i as int]));
            return false;
        }
        i = i + 1;
    }
    true
}

impl Model {
    fn fresh() -> (model: Model)
        ensures
            model@ == ModelView::fresh(),
    {
        Model { acked: OrdMap::new(), first_history: OrdMap::new(), watermark: Ballot::zero() }
    }

    fn covers(&self, history: &Vec<Row>, floor: Ballot, ballot: Ballot) -> (held: bool)
        ensures
            held == covers_own(history@, self@.acked, floor, ballot),
    {
        let n = self.acked.len();
        let mut i: usize = 0;
        let ghost keys = self.acked@.dom();
        proof {
            lemma_walk(keys, 0);
        }
        while i < n
            invariant
                i <= n,
                n == ascending(keys).len(),
                n == keys.len(),
                keys == self.acked@.dom(),
                lists(ascending(keys), keys),
                forall|b: Ballot| #[trigger]
                    walked(keys, i as int).contains(b) && floor.rank() <= b.rank() < ballot.rank()
                        ==> history@.contains(Row { ballot: b, hash: self.acked@[b] }),
            decreases n - i,
        {
            proof {
                lemma_walk(keys, i as int);
            }
            let acked = self.acked.key_at(i);
            if !acked.precedes(floor) && acked.precedes(ballot) {
                let hash = *self.acked.value_at(i);
                if !holds_row(history, Row { ballot: acked, hash }) {
                    assert(self.acked@.contains_key(acked));
                    return false;
                }
            }
            i = i + 1;
        }
        proof {
            lemma_walk(keys, i as int);
            assert forall|b: Ballot| #[trigger]
                self.acked@.contains_key(b) && floor.rank() <= b.rank()
                    < ballot.rank() implies history@.contains(
                Row { ballot: b, hash: self.acked@[b] },
            ) by {
                assert(walked(keys, i as int).contains(b));
            }
        }
        true
    }

    /// Judge one answer, and learn from it.
    pub fn judge(&mut self, ballot: Ballot, hash: u64, outcome: &MatchOutcome) -> (violations:
        MatchViolations)
        requires
            judgeable(ballot, *outcome),
        ensures
            final(self)@ == old(self)@.after(ballot, hash, *outcome),
            violations == old(self)@.violated(ballot, hash, *outcome),
    {
        let mut violations = MatchViolations::clean();
        match outcome {
            MatchOutcome::Registered { history, gc_watermark } => {
                violations.window = !check_window(history, *gc_watermark, ballot);
                violations.regressed = gc_watermark.precedes(self.watermark);
                violations.missing = !self.covers(history, *gc_watermark, ballot);
                self.watermark = *gc_watermark;
                if let Some(prior) = self.acked.get(ballot) {
                    violations.twice = *prior != hash;
                    if let Some(first) = self.first_history.get(ballot) {
                        violations.grown = !check_at_most(history, first);
                    }
                } else {
                    self.acked.insert(ballot, hash);
                    self.first_history.insert(ballot, copy_rows(history));
                }
            },
            MatchOutcome::Stale { highest } => {
                violations.stale = highest.precedes(ballot);
            },
            MatchOutcome::BelowWatermark { watermark } => {
                violations.floor = !(ballot.precedes(*watermark) && !watermark.precedes(
                    self.watermark,
                ));
                self.watermark = *watermark;
            },
        }
        violations
    }
}

fn copy_rows(rows: &Vec<Row>) -> (copy: Vec<Row>)
    ensures
        copy@ == rows@,
{
    let mut copy: Vec<Row> = Vec::new();
    let mut i: usize = 0;
    while i < rows.len()
        invariant
            i <= rows@.len(),
            copy@ == rows@.take(i as int),
        decreases rows@.len() - i,
    {
        copy.push(rows[i]);
        assert(copy@ =~= rows@.take(i + 1));
        i = i + 1;
    }
    assert(rows@.take(i as int) =~= rows@);
    copy
}

/// The shape of one matchmaking operation.
#[derive(Clone, Copy, Debug, PartialEq, Eq, Structural)]
pub enum Policy {
    /// A new ballot above every one this client minted.
    Fresh,
    /// The last request, again.
    Duplicate,
    /// The last ballot with different bytes.
    Conflict,
    /// A ballot below the last one.
    Stale,
}

impl Policy {
    pub open spec fn of_draw(draw: u64) -> Policy {
        if draw % 8 <= 4 {
            Policy::Fresh
        } else if draw % 8 == 5 {
            Policy::Duplicate
        } else if draw % 8 == 6 {
            Policy::Conflict
        } else {
            Policy::Stale
        }
    }

    pub fn from_draw(draw: u64) -> (policy: Policy)
        ensures
            policy == Policy::of_draw(draw),
    {
        match draw % 8 {
            0..=4 => Policy::Fresh,
            5 => Policy::Duplicate,
            6 => Policy::Conflict,
            _ => Policy::Stale,
        }
    }
}

/// One request: its ballot, and whether it registers the client's own
/// configuration or the conflicting one.
#[derive(Clone, Copy, Debug, PartialEq, Eq, Structural)]
pub struct MatchRequest {
    pub ballot: Ballot,
    pub conflicting: bool,
}

/// Which operations a run has exercised.
#[derive(Clone, Copy, Debug, PartialEq, Eq, Structural)]
pub struct Coverage {
    pub fresh: bool,
    pub duplicate: bool,
    pub conflict: bool,
    pub stale: bool,
    pub majority: bool,
    pub collected: bool,
    pub below_watermark: bool,
}

impl Coverage {
    pub open spec fn none() -> Coverage {
        Coverage {
            fresh: false,
            duplicate: false,
            conflict: false,
            stale: false,
            majority: false,
            collected: false,
            below_watermark: false,
        }
    }

    /// With an operation of this shape noted.
    pub open spec fn with(self, policy: Policy) -> Coverage {
        match policy {
            Policy::Fresh => Coverage { fresh: true, ..self },
            Policy::Duplicate => Coverage { duplicate: true, ..self },
            Policy::Conflict => Coverage { conflict: true, ..self },
            Policy::Stale => Coverage { stale: true, ..self },
        }
    }
}

/// One client's matchmaking state.
pub struct MatchmakingClient {
    /// The identity its ballots carry.
    pub proposer: u64,
    /// The hash of the configuration it registers.
    pub config_hash: u64,
    /// The hash of a different one, for the write-once probe.
    pub conflicting_hash: u64,
    pub next_round: u64,
    /// The ballot of the last fresh request.
    pub last: Option<Ballot>,
    /// One per matchmaker.
    pub models: Vec<Model>,
    pub coverage: Coverage,
}

pub struct ClientView {
    pub proposer: u64,
    pub config_hash: u64,
    pub conflicting_hash: u64,
    pub next_round: u64,
    pub last: Option<Ballot>,
    pub models: Seq<ModelView>,
    pub coverage: Coverage,
}

pub open spec fn model_views(models: Seq<Model>) -> Seq<ModelView> {
    models.map_values(|model: Model| model@)
}

impl View for MatchmakingClient {
    type V = ClientView;

    open spec fn view(&self) -> ClientView {
        ClientView {
            proposer: self.proposer,
            config_hash: self.config_hash,
            conflicting_hash: self.conflicting_hash,
            next_round: self.next_round,
            last: self.last,
            models: model_views(self.models@),
            coverage: self.coverage,
        }
    }
}

/// The count of registrations among the first `n` answers.
pub open spec fn registered_among(replies: Seq<Option<MatchReply>>, n: nat) -> nat
    decreases n,
{
    if n == 0 {
        0
    } else {
        registered_among(replies, (n - 1) as nat) + if replies[n - 1] matches Some(reply)
            && reply.outcome is Registered {
            1nat
        } else {
            0nat
        }
    }
}

impl ClientView {
    /// Some matchmaker registered `ballot` for this client.
    pub open spec fn acks(self, ballot: Ballot) -> bool {
        exists|i: int| 0 <= i < self.models.len() && #[trigger] self.models[i].acked.contains_key(
            ballot,
        )
    }

    /// A ballot this client asks under: its own, or the one just below a
    /// registered one of its own.
    pub open spec fn asks_under(self, ballot: Ballot) -> bool {
        ballot.node == self.proposer || (ballot.node + 1 == self.proposer && self.acks(
            Ballot { round: ballot.round, node: self.proposer },
        ))
    }

    pub open spec fn valid(self) -> bool {
        &&& self.proposer >= PROPOSER_ID_BASE
        &&& self.last matches Some(last) ==> last.node == self.proposer && last.round
            < self.next_round
        &&& forall|ballot: Ballot| #[trigger] self.acks(ballot) ==> self.asks_under(ballot)
    }

    pub open spec fn hash_of(self, request: MatchRequest) -> u64 {
        if request.conflicting {
            self.conflicting_hash
        } else {
            self.config_hash
        }
    }

    /// The request that `draw` shapes, and the round counter after it.
    pub open spec fn planned(self, draw: u64) -> Option<MatchRequest> {
        let skip = (draw >> 8) % 3;
        match Policy::of_draw(draw) {
            Policy::Fresh => Some(
                MatchRequest {
                    ballot: Ballot { round: self.next_round, node: self.proposer },
                    conflicting: false,
                },
            ),
            Policy::Duplicate => match self.last {
                Some(last) => Some(MatchRequest { ballot: last, conflicting: false }),
                None => None,
            },
            Policy::Conflict => match self.last {
                Some(last) => Some(MatchRequest { ballot: last, conflicting: true }),
                None => None,
            },
            Policy::Stale => match self.last {
                Some(last) if last.round > 1 + skip => Some(
                    MatchRequest {
                        ballot: Ballot {
                            round: (last.round - (1 + skip)) as u64,
                            node: self.proposer,
                        },
                        conflicting: false,
                    },
                ),
                _ => None,
            },
        }
    }

    pub open spec fn after_plan(self, draw: u64) -> ClientView {
        match self.planned(draw) {
            None => self,
            Some(request) => ClientView {
                next_round: if Policy::of_draw(draw) == Policy::Fresh {
                    (self.next_round + 1 + (draw >> 8) % 3) as u64
                } else {
                    self.next_round
                },
                last: if Policy::of_draw(draw) == Policy::Fresh {
                    Some(request.ballot)
                } else {
                    self.last
                },
                coverage: self.coverage.with(Policy::of_draw(draw)),
                ..self
            },
        }
    }

    /// The state after matchmaker `index` answered.
    pub open spec fn judged(
        self,
        index: int,
        request: MatchRequest,
        outcome: MatchOutcome,
    ) -> ClientView {
        ClientView {
            models: self.models.update(
                index,
                self.models[index].after(request.ballot, self.hash_of(request), outcome),
            ),
            coverage: Coverage {
                below_watermark: self.coverage.below_watermark || outcome is BelowWatermark,
                ..self.coverage
            },
            ..self
        }
    }

    /// The state after the first `n` matchmakers answered; one that did not
    /// answer in time teaches nothing.
    pub open spec fn after_replies(
        self,
        request: MatchRequest,
        replies: Seq<Option<MatchReply>>,
        n: nat,
    ) -> ClientView
        decreases n,
    {
        if n == 0 {
            self
        } else {
            let before = self.after_replies(request, replies, (n - 1) as nat);
            match replies[n - 1] {
                Some(reply) => before.judged(n - 1, request, reply.outcome),
                None => before,
            }
        }
    }

    /// What those answers violate.
    pub open spec fn violated_by(
        self,
        request: MatchRequest,
        replies: Seq<Option<MatchReply>>,
        n: nat,
    ) -> MatchViolations
        decreases n,
    {
        if n == 0 {
            MatchViolations::none()
        } else {
            let before = self.after_replies(request, replies, (n - 1) as nat);
            let found = self.violated_by(request, replies, (n - 1) as nat);
            match replies[n - 1] {
                Some(reply) => found.or(
                    before.models[n - 1].violated(
                        request.ballot,
                        self.hash_of(request),
                        reply.outcome,
                    ),
                ).or(
                    MatchViolations {
                        echo: reply.ballot != request.ballot || reply.to != self.proposer,
                        ..MatchViolations::none()
                    },
                ),
                None => found,
            }
        }
    }

    /// The client after a round of answers, one per matchmaker.
    pub open spec fn after_round(
        self,
        request: MatchRequest,
        replies: Seq<Option<MatchReply>>,
    ) -> ClientView {
        let answered = self.after_replies(request, replies, replies.len());
        ClientView {
            coverage: Coverage {
                majority: answered.coverage.majority || registered_among(replies, replies.len()) * 2
                    > replies.len(),
                ..answered.coverage
            },
            ..answered
        }
    }

    /// What a round of answers shows.
    pub open spec fn verdict_on(
        self,
        request: MatchRequest,
        replies: Seq<Option<MatchReply>>,
    ) -> MatchVerdict {
        MatchVerdict {
            violations: self.violated_by(request, replies, replies.len()),
            first_majority: registered_among(replies, replies.len()) * 2 > replies.len()
                && !self.coverage.majority,
            first_below_watermark: self.after_replies(
                request,
                replies,
                replies.len(),
            ).coverage.below_watermark && !self.coverage.below_watermark,
        }
    }

    /// What the answers to a request below the floor show.
    pub open spec fn verdict_on_probe(
        self,
        request: MatchRequest,
        replies: Seq<Option<MatchReply>>,
    ) -> MatchVerdict {
        let verdict = self.verdict_on(request, replies);
        MatchVerdict {
            violations: MatchViolations { echo: false, ..verdict.violations },
            first_majority: false,
            ..verdict
        }
    }

    /// The client after matchmaker `index` acknowledged a collection.
    pub open spec fn after_ack(self, index: int, reported: Ballot) -> ClientView {
        ClientView {
            models: self.models.update(
                index,
                ModelView { watermark: reported, ..self.models[index] },
            ),
            ..self
        }
    }

    /// What that acknowledgement violates.
    pub open spec fn verdict_on_ack(
        self,
        index: int,
        matchmaker: u64,
        reported: Ballot,
        asked: Ballot,
    ) -> AckVerdict {
        AckVerdict {
            short: !(matchmaker == index && reported.rank() >= asked.rank()),
            regressed: reported.rank() < self.models[index].watermark.rank(),
        }
    }

    /// `ballot` is the highest any matchmaker registered for this client.
    pub open spec fn highest_acked(self, ballot: Ballot) -> bool {
        &&& self.acks(ballot)
        &&& forall|b: Ballot| #[trigger] self.acks(b) ==> b.rank() <= ballot.rank()
    }
}

/// What a round of answers amounted to.
#[derive(Clone, Copy, Debug, PartialEq, Eq, Structural)]
pub struct MatchVerdict {
    pub violations: MatchViolations,
    /// A majority of the matchmakers registered the request, for the first time
    /// in the run.
    pub first_majority: bool,
    /// A request below the watermark was refused, for the first time in the
    /// run.
    pub first_below_watermark: bool,
}

/// A shaped request.
#[derive(Clone, Copy, Debug, PartialEq, Eq, Structural)]
pub struct Planned {
    pub request: MatchRequest,
    pub policy: Policy,
    /// No request of this shape came before it in the run.
    pub first: bool,
}

impl MatchmakingClient {
    /// A client over `matchmakers` matchmakers.
    pub fn new(client_id: u64, matchmakers: usize, config_hash: u64, conflicting_hash: u64) -> (client:
        MatchmakingClient)
        requires
            client_id <= u64::MAX - PROPOSER_ID_BASE,
        ensures
            client@.valid(),
            client@ == (ClientView {
                proposer: (PROPOSER_ID_BASE + client_id) as u64,
                config_hash,
                conflicting_hash,
                next_round: 1,
                last: None,
                models: Seq::new(matchmakers as nat, |i: int| ModelView::fresh()),
                coverage: Coverage::none(),
            }),
    {
        let mut models: Vec<Model> = Vec::new();
        let mut i: usize = 0;
        while i < matchmakers
            invariant
                i <= matchmakers,
                models@.len() == i,
                forall|j: int| 0 <= j < i ==> (#[trigger] models@[j])@ == ModelView::fresh(),
            decreases matchmakers - i,
        {
            models.push(Model::fresh());
            i = i + 1;
        }
        let client = MatchmakingClient {
            proposer: PROPOSER_ID_BASE + client_id,
            config_hash,
            conflicting_hash,
            next_round: 1,
            last: None,
            models,
            coverage: Coverage {
                fresh: false,
                duplicate: false,
                conflict: false,
                stale: false,
                majority: false,
                collected: false,
                below_watermark: false,
            },
        };
        assert(client@.models =~= Seq::new(matchmakers as nat, |i: int| ModelView::fresh()));
        client
    }

    /// Shape one operation by `draw`; nothing where there is no last request to
    /// build on.
    pub fn plan(&mut self, draw: u64) -> (planned: Option<Planned>)
        requires
            old(self)@.valid(),
            old(self)@.next_round <= u64::MAX - 3,
        ensures
            final(self)@ == old(self)@.after_plan(draw),
            final(self)@.valid(),
            match planned {
                Some(planned) => {
                    &&& old(self)@.planned(draw) == Some(planned.request)
                    &&& planned.policy == Policy::of_draw(draw)
                    &&& planned.first == (old(self)@.coverage != old(self)@.coverage.with(
                        planned.policy,
                    ))
                    &&& final(self)@.asks_under(planned.request.ballot)
                },
                None => old(self)@.planned(draw) is None,
            },
    {
        let policy = Policy::from_draw(draw);
        let skip = (draw >> 8) % 3;
        let mut first = false;
        let request = match policy {
            Policy::Fresh => {
                let round = self.next_round;
                self.next_round = round + 1 + skip;
                let ballot = Ballot { round, node: self.proposer };
                self.last = Some(ballot);
                first = !self.coverage.fresh;
                self.coverage.fresh = true;
                MatchRequest { ballot, conflicting: false }
            },
            Policy::Duplicate => match self.last {
                Some(ballot) => {
                    first = !self.coverage.duplicate;
                    self.coverage.duplicate = true;
                    MatchRequest { ballot, conflicting: false }
                },
                None => return None,
            },
            Policy::Conflict => match self.last {
                Some(ballot) => {
                    first = !self.coverage.conflict;
                    self.coverage.conflict = true;
                    MatchRequest { ballot, conflicting: true }
                },
                None => return None,
            },
            Policy::Stale => match self.last {
                Some(last) => {
                    if last.round <= 1 + skip {
                        return None;
                    }
                    first = !self.coverage.stale;
                    self.coverage.stale = true;
                    MatchRequest {
                        ballot: Ballot { round: last.round - (1 + skip), node: self.proposer },
                        conflicting: false,
                    }
                },
                None => return None,
            },
        };
        proof {
            lemma_acks_frame(old(self)@, self@);
        }
        Some(Planned { request, policy, first })
    }

    /// Judge matchmaker `index`'s answer.
    fn judge(&mut self, index: usize, request: MatchRequest, outcome: &MatchOutcome) -> (violations:
        MatchViolations)
        requires
            index < old(self)@.models.len(),
            judgeable(request.ballot, *outcome),
            old(self)@.valid(),
            old(self)@.asks_under(request.ballot),
        ensures
            final(self)@ == old(self)@.judged(index as int, request, *outcome),
            violations == old(self)@.models[index as int].violated(
                request.ballot,
                old(self)@.hash_of(request),
                *outcome,
            ),
            final(self)@.valid(),
            final(self)@.asks_under(request.ballot),
    {
        let hash = if request.conflicting {
            self.conflicting_hash
        } else {
            self.config_hash
        };
        let ghost before = self.models@;
        let violations = self.models[index].judge(request.ballot, hash, outcome);
        if let MatchOutcome::BelowWatermark { .. } = outcome {
            self.coverage.below_watermark = true;
        }
        proof {
            assert(self@.models =~= old(self)@.judged(index as int, request, *outcome).models);
            lemma_judged_valid(old(self)@, index as int, request, *outcome);
        }
        violations
    }

    /// Take in a round of answers, one per matchmaker: what they violate, and
    /// how many registered the request.
    fn take_replies(&mut self, request: MatchRequest, replies: &Vec<Option<MatchReply>>) -> (heard: (
        MatchViolations,
        usize,
    ))
        requires
            old(self)@.valid(),
            old(self)@.asks_under(request.ballot),
            replies@.len() == old(self)@.models.len(),
            forall|i: int|
                0 <= i < replies@.len() && (#[trigger] replies@[i]) is Some ==> judgeable(
                    request.ballot,
                    replies@[i]->0.outcome,
                ),
        ensures
            final(self)@.valid(),
            final(self)@ == old(self)@.after_replies(request, replies@, replies@.len()),
            final(self)@.coverage.majority == old(self)@.coverage.majority,
            heard.0 == old(self)@.violated_by(request, replies@, replies@.len()),
            heard.1 == registered_among(replies@, replies@.len()),
            heard.1 <= replies@.len(),
    {
        let n = replies.len();
        let mut violations = MatchViolations::clean();
        let mut registered: usize = 0;
        let mut i: usize = 0;
        while i < n
            invariant
                i <= n,
                n == replies@.len(),
                n == self@.models.len(),
                self@.valid(),
                self@.asks_under(request.ballot),
                self@ == old(self)@.after_replies(request, replies@, i as nat),
                self@.proposer == old(self)@.proposer,
                self@.config_hash == old(self)@.config_hash,
                self@.conflicting_hash == old(self)@.conflicting_hash,
                self@.coverage.majority == old(self)@.coverage.majority,
                violations == old(self)@.violated_by(request, replies@, i as nat),
                registered == registered_among(replies@, i as nat),
                registered <= i,
                forall|i: int|
                    0 <= i < replies@.len() && (#[trigger] replies@[i]) is Some ==> judgeable(
                        request.ballot,
                        replies@[i]->0.outcome,
                    ),
            decreases n - i,
        {
            if let Some(reply) = &replies[i] {
                let echo = reply.ballot != request.ballot || reply.to != self.proposer;
                let found = self.judge(i, request, &reply.outcome);
                let mut heard = MatchViolations::clean();
                heard.echo = echo;
                violations = violations.joined(found).joined(heard);
                if let MatchOutcome::Registered { .. } = &reply.outcome {
                    registered = registered + 1;
                }
            }
            i = i + 1;
        }
        (violations, registered)
    }

    /// Judge a round of answers, one per matchmaker.
    pub fn judge_replies(
        &mut self,
        request: MatchRequest,
        replies: &Vec<Option<MatchReply>>,
    ) -> (verdict: MatchVerdict)
        requires
            old(self)@.valid(),
            old(self)@.asks_under(request.ballot),
            replies@.len() == old(self)@.models.len(),
            forall|i: int|
                0 <= i < replies@.len() && (#[trigger] replies@[i]) is Some ==> judgeable(
                    request.ballot,
                    replies@[i]->0.outcome,
                ),
        ensures
            final(self)@.valid(),
            final(self)@ == old(self)@.after_round(request, replies@),
            verdict == old(self)@.verdict_on(request, replies@),
    {
        let refused_before = self.coverage.below_watermark;
        let counted_before = self.coverage.majority;
        let (violations, registered) = self.take_replies(request, replies);
        let ghost answered = self@;
        let majority = registered > replies.len() / 2;
        if majority {
            self.coverage.majority = true;
        }
        proof {
            lemma_acks_frame(answered, self@);
        }
        MatchVerdict {
            violations,
            first_majority: majority && !counted_before,
            first_below_watermark: self.coverage.below_watermark && !refused_before,
        }
    }

    /// Judge the answers to a request below the floor. It counts toward no
    /// majority, and what its answers echo is not looked at.
    pub fn judge_probe(&mut self, request: MatchRequest, replies: &Vec<Option<MatchReply>>) -> (verdict:
        MatchVerdict)
        requires
            old(self)@.valid(),
            old(self)@.asks_under(request.ballot),
            replies@.len() == old(self)@.models.len(),
            forall|i: int|
                0 <= i < replies@.len() && (#[trigger] replies@[i]) is Some ==> judgeable(
                    request.ballot,
                    replies@[i]->0.outcome,
                ),
        ensures
            final(self)@.valid(),
            final(self)@ == old(self)@.after_replies(request, replies@, replies@.len()),
            verdict == old(self)@.verdict_on_probe(request, replies@),
    {
        let refused_before = self.coverage.below_watermark;
        let (heard, _) = self.take_replies(request, replies);
        let mut violations = heard;
        violations.echo = false;
        MatchVerdict {
            violations,
            first_majority: false,
            first_below_watermark: self.coverage.below_watermark && !refused_before,
        }
    }

    /// The watermark to ask for: the highest ballot this client has seen
    /// registered. Nothing where there is none.
    pub fn collect_target(&mut self) -> (target: Option<Ballot>)
        requires
            old(self)@.valid(),
        ensures
            final(self)@.valid(),
            match target {
                Some(ballot) => {
                    &&& old(self)@.highest_acked(ballot)
                    &&& final(self)@ == (ClientView {
                        coverage: Coverage { collected: true, ..old(self)@.coverage },
                        ..old(self)@
                    })
                },
                None => {
                    &&& final(self)@ == old(self)@
                    &&& forall|b: Ballot| !#[trigger] old(self)@.acks(b)
                },
            },
    {
        let mut target: Option<Ballot> = None;
        let mut i: usize = 0;
        while i < self.models.len()
            invariant
                i <= self.models@.len(),
                self@ == old(self)@,
                match target {
                    Some(ballot) => {
                        &&& self@.acks(ballot)
                        &&& forall|j: int, b: Ballot|
                            0 <= j < i && #[trigger] self@.models[j].acked.contains_key(b)
                                ==> b.rank() <= ballot.rank()
                    },
                    None => forall|j: int, b: Ballot|
                        0 <= j < i ==> !#[trigger] self@.models[j].acked.contains_key(b),
                },
            decreases self.models@.len() - i,
        {
            assert(self@.models[i as int] == self.models@[i as int]@);
            if let Some(last) = self.models[i].acked.last_key() {
                assert(self@.models[i as int].acked.contains_key(last));
                target = match target {
                    Some(ballot) => Some(ballot.or_greater(last)),
                    None => Some(last),
                };
            }
            i = i + 1;
        }
        if target.is_some() {
            self.coverage.collected = true;
        }
        proof {
            lemma_acks_frame(old(self)@, self@);
        }
        target
    }

    /// Judge one acknowledged collection: the matchmaker that answered, and the
    /// watermark it reported.
    pub fn judge_ack(&mut self, index: usize, matchmaker: u64, reported: Ballot, asked: Ballot) -> (verdict:
        AckVerdict)
        requires
            old(self)@.valid(),
            index < old(self)@.models.len(),
        ensures
            final(self)@.valid(),
            final(self)@ == old(self)@.after_ack(index as int, reported),
            verdict == old(self)@.verdict_on_ack(index as int, matchmaker, reported, asked),
    {
        let verdict = AckVerdict {
            short: !(matchmaker == index as u64 && !reported.precedes(asked)),
            regressed: reported.precedes(self.models[index].watermark),
        };
        self.models[index].watermark = reported;
        proof {
            assert(self@.models =~= old(self)@.models.update(
                index as int,
                (ModelView { watermark: reported, ..old(self)@.models[index as int] }),
            ));
            assert forall|b: Ballot| #[trigger] self@.acks(b) == old(self)@.acks(b) by {
                lemma_acks_same(old(self)@, self@, b);
            }
            assert(self@.valid());
        }
        verdict
    }

    /// The request below the floor just raised: the same round, one proposer
    /// down.
    pub fn floor_probe(&self, watermark: Ballot) -> (request: MatchRequest)
        requires
            self@.valid(),
            self@.highest_acked(watermark),
        ensures
            request == (MatchRequest {
                ballot: Ballot { round: watermark.round, node: (self@.proposer - 1) as u64 },
                conflicting: false,
            }),
            request.ballot.rank() < watermark.rank(),
            self@.asks_under(request.ballot),
    {
        proof {
            law_highest_acked_is_own(self@, watermark);
        }
        MatchRequest {
            ballot: Ballot { round: watermark.round, node: self.proposer - 1 },
            conflicting: false,
        }
    }
}

/// What an acknowledged collection violates.
#[derive(Clone, Copy, Debug, PartialEq, Eq, Structural)]
pub struct AckVerdict {
    /// Another matchmaker's answer, or a watermark below the one asked for.
    pub short: bool,
    /// The reported watermark went down.
    pub regressed: bool,
}

proof fn lemma_acks_same(a: ClientView, b: ClientView, ballot: Ballot)
    requires
        a.models.len() == b.models.len(),
        forall|i: int| 0 <= i < a.models.len() ==> (#[trigger] a.models[i]).acked == b.models[i].acked,
    ensures
        a.acks(ballot) == b.acks(ballot),
{
    if a.acks(ballot) {
        let i = choose|i: int|
            0 <= i < a.models.len() && #[trigger] a.models[i].acked.contains_key(ballot);
        assert(b.models[i].acked.contains_key(ballot));
    }
    if b.acks(ballot) {
        let i = choose|i: int|
            0 <= i < b.models.len() && #[trigger] b.models[i].acked.contains_key(ballot);
        assert(a.models[i].acked.contains_key(ballot));
    }
}

proof fn lemma_acks_frame(a: ClientView, b: ClientView)
    requires
        a.models == b.models,
    ensures
        forall|ballot: Ballot| #[trigger] b.acks(ballot) == a.acks(ballot),
{
    assert forall|ballot: Ballot| #[trigger] b.acks(ballot) == a.acks(ballot) by {
        lemma_acks_same(a, b, ballot);
    }
}

proof fn lemma_judged_valid(
    v: ClientView,
    index: int,
    request: MatchRequest,
    outcome: MatchOutcome,
)
    requires
        v.valid(),
        v.asks_under(request.ballot),
        0 <= index < v.models.len(),
    ensures
        v.judged(index, request, outcome).valid(),
        v.judged(index, request, outcome).asks_under(request.ballot),
{
    let w = v.judged(index, request, outcome);
    assert forall|ballot: Ballot| v.acks(ballot) implies #[trigger] w.acks(ballot) by {
        let i = choose|i: int|
            0 <= i < v.models.len() && #[trigger] v.models[i].acked.contains_key(ballot);
        assert(w.models[i].acked.contains_key(ballot));
    }
    assert forall|ballot: Ballot| #[trigger] w.acks(ballot) implies w.asks_under(ballot) by {
        let i = choose|i: int|
            0 <= i < w.models.len() && #[trigger] w.models[i].acked.contains_key(ballot);
        if v.models[i].acked.contains_key(ballot) {
            assert(v.acks(ballot));
            assert(v.asks_under(ballot));
        } else {
            assert(ballot == request.ballot);
        }
    }
}

/// The highest ballot a client has seen registered is one of its own, so the
/// request it then sends under it is strictly below the watermark it asked for.
pub proof fn law_highest_acked_is_own(v: ClientView, ballot: Ballot)
    requires
        v.valid(),
        v.highest_acked(ballot),
    ensures
        ballot.node == v.proposer,
{
    assert(v.asks_under(ballot));
    if ballot.node != v.proposer {
        let own = Ballot { round: ballot.round, node: v.proposer };
        assert(v.acks(own));
    }
}

/// A registration a client has seen stays with the bytes it was first seen
/// with, whatever is answered later.
pub proof fn law_registration_is_write_once(
    m: ModelView,
    ballot: Ballot,
    hash: u64,
    outcome: MatchOutcome,
    earlier: Ballot,
)
    requires
        m.acked.contains_key(earlier),
    ensures
        m.after(ballot, hash, outcome).acked.contains_key(earlier),
        m.after(ballot, hash, outcome).acked[earlier] == m.acked[earlier],
{
}

/// An answer judged sound never lowers the matchmaker's watermark.
pub proof fn law_sound_answer_keeps_watermark(
    m: ModelView,
    ballot: Ballot,
    hash: u64,
    outcome: MatchOutcome,
)
    requires
        m.violated(ballot, hash, outcome) == MatchViolations::none(),
    ensures
        m.after(ballot, hash, outcome).watermark.rank() >= m.watermark.rank(),
{
}

/// A conflicting registration of a ballot this client already saw registered
/// is never judged sound.
pub proof fn law_conflict_is_never_accepted(
    m: ModelView,
    ballot: Ballot,
    hash: u64,
    outcome: MatchOutcome,
)
    requires
        m.acked.contains_key(ballot),
        m.acked[ballot] != hash,
        outcome is Registered,
    ensures
        m.violated(ballot, hash, outcome).twice,
{
}

/// A fresh ballot is above the last one this client minted.
pub proof fn law_fresh_ballots_rise(v: ClientView, draw: u64, last: Ballot)
    requires
        v.valid(),
        v.last == Some(last),
        Policy::of_draw(draw) == Policy::Fresh,
    ensures
        v.planned(draw) is Some,
        v.planned(draw)->0.ballot.rank() > last.rank(),
{
}

} // verus!
