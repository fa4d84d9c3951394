//! The proposal client's script: what it asks for, in which order, and what it
//! makes of each outcome. The caller performs each action and hands back what
//! came of it.
use crate::CHAOS_DURATION_MS;
use vstd::prelude::*;

verus! {

/// Granularity of a quiet run's idle before its proposal, in simulated
/// milliseconds: the delay is a four-bit draw times this step, so it lands
/// anywhere in the chaos window.
pub const QUIET_DELAY_STEP_MS: u64 = CHAOS_DURATION_MS / 16;

/// A client that interleaves proposals with reads and records each outcome. A
/// proposal is deduplicated by its client and sequence number; on a redirect
/// the client cycles to the next node until the leader commits it.
#[derive(Clone, Copy, Debug, PartialEq, Eq, Structural)]
pub struct ProposeClient;

/// How much a run's client asks for, drawn once per run.
#[derive(Clone, Copy, Debug, PartialEq, Eq, Structural)]
pub enum WorkloadMode {
    /// One outstanding operation at a time: `W0 R0 W1 R1 ...`.
    Sequential,
    /// `depth` proposals at once, joined, then a read of the last committed
    /// one.
    Pipelined { depth: u32 },
    /// One decision, then silence: idle, commit a single proposal, idle again.
    /// No read, and no compaction either: a truncation would decide a second
    /// slot, and a run whose whole history is slot zero is what this mode is
    /// for.
    Quiet { delay_ms: u64 },
}

/// The number that `bits` spells, first bit highest.
pub open spec fn spelled(bits: Seq<bool>) -> nat
    decreases bits.len(),
{
    if bits.len() == 0 {
        0
    } else {
        2 * spelled(bits.drop_last()) + if bits.last() {
            1nat
        } else {
            0nat
        }
    }
}

fn spell(bits: &Vec<bool>) -> (number: u64)
    requires
        bits@.len() <= 4,
    ensures
        number == spelled(bits@),
        bits@.len() <= 3 ==> number < 8,
        number < 16,
{
    let mut number: u64 = 0;
    let mut i: usize = 0;
    proof {
        assert(bits@.take(0) =~= Seq::<bool>::empty());
    }
    while i < bits.len()
        invariant
            i <= bits@.len() <= 4,
            number == spelled(bits@.take(i as int)),
            i == 0 ==> number < 1,
            i <= 1 ==> number < 2,
            i <= 2 ==> number < 4,
            i <= 3 ==> number < 8,
            number < 16,
        decreases bits@.len() - i,
    {
        proof {
            assert(bits@.take(i + 1).drop_last() =~= bits@.take(i as int));
            assert(bits@.take(i + 1).last() == bits@[i as int]);
        }
        number = 2 * number + if bits[i] {
            1
        } else {
            0
        };
        i = i + 1;
    }
    assert(bits@.take(i as int) =~= bits@);
    number
}

impl WorkloadMode {
    pub open spec fn of_coins(quiet: bool, pipelined: bool, bits: Seq<bool>) -> WorkloadMode {
        if quiet {
            WorkloadMode::Quiet { delay_ms: (spelled(bits) * QUIET_DELAY_STEP_MS) as u64 }
        } else if pipelined {
            WorkloadMode::Pipelined { depth: (2 + spelled(bits) % 7) as u32 }
        } else {
            WorkloadMode::Sequential
        }
    }

    /// How many further coins a mode takes once its own are tossed.
    pub fn coins_after(quiet: bool, pipelined: bool) -> (coins: usize)
        ensures
            coins == if quiet {
                4
            } else if pipelined {
                3
            } else {
                0usize
            },
    {
        if quiet {
            4
        } else if pipelined {
            3
        } else {
            0
        }
    }

    /// The mode the coins decide.
    pub fn from_coins(quiet: bool, pipelined: bool, bits: &Vec<bool>) -> (mode: WorkloadMode)
        requires
            bits@.len() == if quiet {
                4int
            } else if pipelined {
                3
            } else {
                0
            },
        ensures
            mode == WorkloadMode::of_coins(quiet, pipelined, bits@),
            mode matches WorkloadMode::Pipelined { depth } ==> 2 <= depth <= 8,
            mode matches WorkloadMode::Quiet { delay_ms } ==> delay_ms < CHAOS_DURATION_MS,
    {
        let number = spell(bits);
        if quiet {
            WorkloadMode::Quiet { delay_ms: number * QUIET_DELAY_STEP_MS }
        } else if pipelined {
            WorkloadMode::Pipelined { depth: (2 + number % 7) as u32 }
        } else {
            WorkloadMode::Sequential
        }
    }
}

/// The node an operation is first sent to.
pub open spec fn home(seq: u64, nodes: usize) -> int {
    if seq <= usize::MAX {
        seq as int % nodes as int
    } else {
        0
    }
}

pub fn first_target(seq: u64, nodes: usize) -> (target: usize)
    requires
        nodes > 0,
    ensures
        target == home(seq, nodes),
        target < nodes,
{
    if seq <= usize::MAX as u64 {
        seq as usize % nodes
    } else {
        0
    }
}

/// The node tried after `target`.
pub fn next_target(target: usize, nodes: usize) -> (next: usize)
    requires
        target < nodes,
    ensures
        next == (target + 1) % nodes as int,
        next < nodes,
{
    if target == nodes - 1 {
        proof {
            vstd::arithmetic::div_mod::lemma_mod_self_0(nodes as int);
        }
        0
    } else {
        proof {
            vstd::arithmetic::div_mod::lemma_small_mod((target + 1) as nat, nodes as nat);
        }
        target + 1
    }
}

/// The node tried on attempt `k`, counting from zero.
pub open spec fn nth_target(seq: u64, nodes: usize, k: nat) -> int
    decreases k,
{
    if k == 0 {
        home(seq, nodes)
    } else {
        (nth_target(seq, nodes, (k - 1) as nat) + 1) % nodes as int
    }
}

pub(crate) proof fn lemma_nth_target(seq: u64, nodes: usize, k: nat)
    requires
        nodes > 0,
    ensures
        nth_target(seq, nodes, k) == (home(seq, nodes) + k) % nodes as int,
        0 <= nth_target(seq, nodes, k) < nodes,
    decreases k,
{
    if k == 0 {
        vstd::arithmetic::div_mod::lemma_mod_bound(seq as int, nodes as int);
        vstd::arithmetic::div_mod::lemma_small_mod(home(seq, nodes) as nat, nodes as nat);
    } else {
        lemma_nth_target(seq, nodes, (k - 1) as nat);
        let at = home(seq, nodes) + (k - 1);
        vstd::arithmetic::div_mod::lemma_add_mod_noop(at, 1, nodes as int);
        vstd::arithmetic::div_mod::lemma_add_mod_noop(at % nodes as int, 1, nodes as int);
        vstd::arithmetic::div_mod::lemma_mod_twice(at, nodes as int);
        vstd::arithmetic::div_mod::lemma_mod_bound(at + 1, nodes as int);
    }
}

/// Cycling reaches every node within one round of attempts.
pub proof fn law_cycling_reaches_every_node(seq: u64, nodes: usize, node: usize) -> (k: nat)
    requires
        node < nodes,
    ensures
        k < nodes,
        nth_target(seq, nodes, k) == node,
{
    lemma_nth_target(seq, nodes, 0);
    let home = home(seq, nodes);
    let k = if node >= home {
        (node - home) as nat
    } else {
        (node + nodes - home) as nat
    };
    lemma_nth_target(seq, nodes, k);
    if node >= home {
        vstd::arithmetic::div_mod::lemma_small_mod(node as nat, nodes as nat);
    } else {
        vstd::arithmetic::div_mod::lemma_mod_add_multiples_vanish(node as int, nodes as int);
        vstd::arithmetic::div_mod::lemma_small_mod(node as nat, nodes as nat);
    }
    k
}

/// One operation under way: the node it is sent to, and how often it was sent.
#[derive(Clone, Copy, Debug, PartialEq, Eq, Structural)]
pub struct Attempt {
    pub seq: u64,
    pub nodes: usize,
    pub target: usize,
    pub tries: u64,
}

/// A node's answer to an operation.
#[derive(Clone, Copy, Debug, PartialEq, Eq, Structural)]
pub struct Answer {
    pub seq: u64,
    pub committed: bool,
}

/// What an answer leads to.
#[derive(Clone, Copy, Debug, PartialEq, Eq, Structural)]
pub struct Answered {
    /// The operation committed; otherwise it goes to the next node.
    pub settled: bool,
    /// The answer echoes another request.
    pub misdirected: bool,
}

impl Attempt {
    pub open spec fn valid(self) -> bool {
        &&& self.target < self.nodes
        &&& self.tries > 0
        &&& self.target == nth_target(self.seq, self.nodes, (self.tries - 1) as nat)
    }

    /// What an answer shows, or the lack of one.
    pub open spec fn shown(self, answer: Option<Answer>) -> Answered {
        Answered {
            settled: answer matches Some(answer) && answer.committed,
            misdirected: answer matches Some(answer) && answer.seq != self.seq,
        }
    }

    /// The attempt after an answer: where it did not settle, the next node is
    /// tried.
    pub open spec fn after(self, answer: Option<Answer>) -> Attempt {
        if self.shown(answer).settled {
            self
        } else {
            Attempt {
                target: ((self.target + 1) % self.nodes as int) as usize,
                tries: (self.tries + 1) as u64,
                ..self
            }
        }
    }

    /// Send an operation for the first time.
    pub fn start(seq: u64, nodes: usize) -> (attempt: Attempt)
        requires
            nodes > 0,
        ensures
            attempt.valid(),
            attempt.seq == seq,
            attempt.nodes == nodes,
            attempt.tries == 1,
    {
        Attempt { seq, nodes, target: first_target(seq, nodes), tries: 1 }
    }

    /// Take in what a node answered, nothing where the call failed. A node that
    /// did not commit the operation sends the client on to the next one.
    pub fn answered(&mut self, answer: Option<Answer>) -> (answered: Answered)
        requires
            old(self).valid(),
            old(self).tries < u64::MAX,
        ensures
            final(self).valid(),
            final(self).seq == old(self).seq,
            final(self).nodes == old(self).nodes,
            answered == old(self).shown(answer),
            *final(self) == old(self).after(answer),
    {
        let (settled, misdirected) = match answer {
            Some(answer) => (answer.committed, answer.seq != self.seq),
            None => (false, false),
        };
        if !settled {
            self.target = next_target(self.target, self.nodes);
            self.tries = self.tries + 1;
        }
        Answered { settled, misdirected }
    }
}

/// A committed proposal, as its acknowledgement reports it.
#[derive(Clone, Copy, Debug, PartialEq, Eq, Structural)]
pub struct WriteAck {
    pub leader: Option<u64>,
    pub slot: Option<u64>,
}

/// Ask `node` to truncate up to `up_to`.
#[derive(Clone, Copy, Debug, PartialEq, Eq, Structural)]
pub struct Compaction {
    pub node: usize,
    pub up_to: u64,
}

/// What the client is waiting for.
#[derive(Clone, Copy, Debug, PartialEq, Eq, Structural)]
pub enum Phase {
    /// The outcomes of the proposals from `first` to before `end`.
    Writing { first: u64, end: u64 },
    /// A read's outcome, the batch before `end` being done.
    Reading { end: u64 },
    /// The gap after the batch before `end`.
    Pausing { end: u64 },
    /// The idle before a quiet run's proposal.
    Idling,
    /// The rest of the chaos window after it.
    Waiting,
    /// The settle tail.
    Settling,
    Finished,
}

/// What the caller does next.
#[derive(Clone, Copy, Debug, PartialEq, Eq, Structural)]
pub enum Action {
    /// Send the proposals from `first` to before `end` at once, and wait for
    /// them all.
    Write { first: u64, end: u64 },
    Read { seq: u64 },
    /// Sleep the gap between operations.
    Gap,
    Idle { ms: u64 },
    /// Sleep the settle tail.
    Settle,
    Finish,
}

/// What became of the last action.
pub enum Event {
    /// One outcome per proposal, in order; none where it did not commit in
    /// time.
    Wrote { outcomes: Vec<Option<WriteAck>> },
    Read { acknowledged: bool },
    /// A sleep ended.
    Woke,
}

/// A client's script and its tallies.
#[derive(Clone, Copy, Debug, PartialEq, Eq, Structural)]
pub struct ClientScript {
    pub mode: WorkloadMode,
    pub requests: u32,
    pub nodes: usize,
    pub phase: Phase,
    pub acknowledged: u32,
    pub reads_acknowledged: u32,
    /// The highest slot seen committed: the watermark handed to the leader.
    pub max_slot: Option<u64>,
}

/// The proposals in one batch at most.
pub open spec fn depth(mode: WorkloadMode) -> int {
    match mode {
        WorkloadMode::Pipelined { depth } => depth as int,
        _ => 1,
    }
}

/// The highest slot after the first `n` outcomes.
pub open spec fn max_slot_after(
    max_slot: Option<u64>,
    outcomes: Seq<Option<WriteAck>>,
    n: nat,
) -> Option<u64>
    decreases n,
{
    if n == 0 {
        max_slot
    } else {
        let before = max_slot_after(max_slot, outcomes, (n - 1) as nat);
        match outcomes[n - 1] {
            Some(ack) => match (ack.slot, before) {
                (Some(slot), Some(max)) => Some(
                    if slot > max {
                        slot
                    } else {
                        max
                    },
                ),
                (Some(slot), None) => Some(slot),
                (None, before) => before,
            },
            None => before,
        }
    }
}

pub open spec fn committed(outcomes: Seq<Option<WriteAck>>, n: nat) -> nat
    decreases n,
{
    if n == 0 {
        0
    } else {
        committed(outcomes, (n - 1) as nat) + if outcomes[n - 1] is Some {
            1nat
        } else {
            0nat
        }
    }
}

/// The last of the first `n` proposals, counting from `first`, that committed.
pub open spec fn last_committed(
    first: u64,
    outcomes: Seq<Option<WriteAck>>,
    n: nat,
) -> Option<u64>
    decreases n,
{
    if n == 0 {
        None
    } else if outcomes[n - 1] is Some {
        Some((first + n - 1) as u64)
    } else {
        last_committed(first, outcomes, (n - 1) as nat)
    }
}

/// The node a leader's id names.
pub open spec fn leader_index(leader: u64) -> int {
    if leader <= usize::MAX {
        leader as int
    } else {
        0
    }
}

impl ClientScript {
    /// The compaction that outcome `i` gives rise to: none in a quiet run, and
    /// none without a leader to ask or a slot to name.
    pub open spec fn compaction(self, outcomes: Seq<Option<WriteAck>>, i: int) -> Option<Compaction> {
        match (outcomes[i], max_slot_after(self.max_slot, outcomes, (i + 1) as nat)) {
            (Some(ack), Some(up_to)) => match ack.leader {
                Some(leader) if self.mode !is Quiet && leader_index(leader) < self.nodes => Some(
                    Compaction { node: leader_index(leader) as usize, up_to },
                ),
                _ => None,
            },
            _ => None,
        }
    }

    /// The compactions of the first `n` outcomes, in order.
    pub open spec fn compactions(self, outcomes: Seq<Option<WriteAck>>, n: nat) -> Seq<Compaction>
        decreases n,
    {
        if n == 0 {
            seq![]
        } else {
            let before = self.compactions(outcomes, (n - 1) as nat);
            match self.compaction(outcomes, n - 1) {
                Some(compaction) => before.push(compaction),
                None => before,
            }
        }
    }

    /// How many requests were begun.
    pub open spec fn begun(self) -> int {
        match self.phase {
            Phase::Writing { first, end } => first as int,
            Phase::Reading { end } => end as int,
            Phase::Pausing { end } => end as int,
            Phase::Idling => 0,
            _ => self.requests as int + 1,
        }
    }

    pub open spec fn valid(self) -> bool {
        &&& self.requests < u32::MAX
        &&& self.acknowledged <= self.begun()
        &&& self.phase is Reading ==> self.reads_acknowledged < self.begun()
        &&& self.reads_acknowledged <= self.begun()
        &&& self.mode matches WorkloadMode::Pipelined { depth } ==> depth >= 1
        &&& self.phase matches Phase::Writing { first, end } ==> {
            &&& first < end
            &&& end - first <= depth(self.mode)
            &&& self.mode !is Quiet ==> end <= self.requests
            &&& self.mode is Quiet ==> first == 0 && end == 1
        }
        &&& self.phase matches Phase::Reading { end } ==> 0 < end <= self.requests
        &&& self.phase matches Phase::Pausing { end } ==> end <= self.requests
        &&& self.mode is Quiet ==> self.phase !is Reading && self.phase !is Pausing
        &&& self.mode !is Quiet ==> self.phase !is Idling && self.phase !is Waiting
    }

    /// The phase and action that begin the batch at `seq`.
    pub open spec fn batch_at(self, seq: u64, cancelled: bool) -> (Phase, Action) {
        if seq < self.requests && !cancelled {
            let end = if seq + depth(self.mode) < self.requests {
                (seq + depth(self.mode)) as u64
            } else {
                self.requests as u64
            };
            (Phase::Writing { first: seq, end }, Action::Write { first: seq, end })
        } else {
            (Phase::Settling, Action::Settle)
        }
    }

    pub open spec fn quiet_tail(self) -> Action {
        Action::Idle {
            ms: match self.mode {
                WorkloadMode::Quiet { delay_ms } if delay_ms < CHAOS_DURATION_MS => (
                CHAOS_DURATION_MS - delay_ms) as u64,
                _ => 0,
            },
        }
    }

    /// The phase after `event`, and the action it calls for.
    pub open spec fn stepped(self, event: Event, cancelled: bool) -> (Phase, Action) {
        match (self.phase, event) {
            (Phase::Writing { first, end }, Event::Wrote { outcomes }) => match self.mode {
                WorkloadMode::Quiet { delay_ms } => (Phase::Waiting, self.quiet_tail()),
                WorkloadMode::Sequential => (Phase::Reading { end }, Action::Read { seq: first }),
                WorkloadMode::Pipelined { depth } => match last_committed(
                    first,
                    outcomes@,
                    outcomes@.len(),
                ) {
                    Some(seq) => (Phase::Reading { end }, Action::Read { seq }),
                    None => (Phase::Pausing { end }, Action::Gap),
                },
            },
            (Phase::Reading { end }, Event::Read { acknowledged }) => (
                Phase::Pausing { end },
                Action::Gap,
            ),
            (Phase::Pausing { end }, Event::Woke) => self.batch_at(end, cancelled),
            (Phase::Idling, Event::Woke) => if cancelled {
                (Phase::Waiting, self.quiet_tail())
            } else {
                (Phase::Writing { first: 0, end: 1 }, Action::Write { first: 0, end: 1 })
            },
            (Phase::Waiting, Event::Woke) => (Phase::Settling, Action::Settle),
            (_, _) => (Phase::Finished, Action::Finish),
        }
    }

    /// The event answers what the client is waiting for.
    pub open spec fn answers(self, event: Event) -> bool {
        match (self.phase, event) {
            (Phase::Writing { first, end }, Event::Wrote { outcomes }) => outcomes@.len() == end
                - first,
            (Phase::Reading { end }, Event::Read { acknowledged }) => true,
            (Phase::Pausing { end }, Event::Woke) => true,
            (Phase::Idling, Event::Woke) => true,
            (Phase::Waiting, Event::Woke) => true,
            (Phase::Settling, Event::Woke) => true,
            _ => false,
        }
    }

    /// The script after `event`.
    pub open spec fn after(self, event: Event, cancelled: bool) -> ClientScript {
        let next = self.stepped(event, cancelled).0;
        match event {
            Event::Wrote { outcomes } => ClientScript {
                phase: next,
                acknowledged: (self.acknowledged + committed(outcomes@, outcomes@.len())) as u32,
                max_slot: max_slot_after(self.max_slot, outcomes@, outcomes@.len()),
                ..self
            },
            Event::Read { acknowledged } => ClientScript {
                phase: next,
                reads_acknowledged: (self.reads_acknowledged + if acknowledged {
                    1int
                } else {
                    0
                }) as u32,
                ..self
            },
            Event::Woke => ClientScript { phase: next, ..self },
        }
    }

    /// A script at its start, and its first action.
    pub open spec fn opened(
        mode: WorkloadMode,
        requests: u32,
        nodes: usize,
        cancelled: bool,
    ) -> (ClientScript, Action) {
        let bare = ClientScript {
            mode,
            requests,
            nodes,
            phase: Phase::Idling,
            acknowledged: 0,
            reads_acknowledged: 0,
            max_slot: None,
        };
        match mode {
            WorkloadMode::Quiet { delay_ms } => (bare, Action::Idle { ms: delay_ms }),
            _ => {
                let (phase, action) = bare.batch_at(0, cancelled);
                (ClientScript { phase, ..bare }, action)
            },
        }
    }

    /// Start a script: its state, and its first action.
    pub fn start(mode: WorkloadMode, requests: u32, nodes: usize, cancelled: bool) -> (started: (
        ClientScript,
        Action,
    ))
        requires
            requests < u32::MAX,
            mode matches WorkloadMode::Pipelined { depth } ==> depth >= 1,
        ensures
            started.0.valid(),
            started == ClientScript::opened(mode, requests, nodes, cancelled),
    {
        let mut script = ClientScript {
            mode,
            requests,
            nodes,
            phase: Phase::Idling,
            acknowledged: 0,
            reads_acknowledged: 0,
            max_slot: None,
        };
        match mode {
            WorkloadMode::Quiet { delay_ms } => (script, Action::Idle { ms: delay_ms }),
            _ => {
                let (phase, action) = script.begin_batch(0, cancelled);
                script.phase = phase;
                (script, action)
            },
        }
    }

    fn begin_batch(&self, seq: u64, cancelled: bool) -> (begun: (Phase, Action))
        requires
            seq <= self.requests,
            self.mode matches WorkloadMode::Pipelined { depth } ==> depth >= 1,
        ensures
            begun == self.batch_at(seq, cancelled),
    {
        let requests = self.requests as u64;
        if seq < requests && !cancelled {
            let depth: u64 = match self.mode {
                WorkloadMode::Pipelined { depth } => depth as u64,
                _ => 1,
            };
            let end = if depth < requests - seq {
                seq + depth
            } else {
                requests
            };
            (Phase::Writing { first: seq, end }, Action::Write { first: seq, end })
        } else {
            (Phase::Settling, Action::Settle)
        }
    }

    fn tail(&self) -> (action: Action)
        ensures
            action == self.quiet_tail(),
    {
        match self.mode {
            WorkloadMode::Quiet { delay_ms } => if delay_ms < CHAOS_DURATION_MS {
                Action::Idle { ms: CHAOS_DURATION_MS - delay_ms }
            } else {
                Action::Idle { ms: 0 }
            },
            _ => Action::Idle { ms: 0 },
        }
    }

    /// Tally a batch's outcomes.
    fn tally(&mut self, first: u64, outcomes: &Vec<Option<WriteAck>>) -> (tally: (
        Vec<Compaction>,
        Option<u64>,
    ))
        requires
            first + outcomes@.len() <= u32::MAX,
            old(self).acknowledged <= first,
        ensures
            *final(self) == (ClientScript {
                acknowledged: (old(self).acknowledged + committed(
                    outcomes@,
                    outcomes@.len(),
                )) as u32,
                max_slot: max_slot_after(old(self).max_slot, outcomes@, outcomes@.len()),
                ..*old(self)
            }),
            final(self).acknowledged <= first + outcomes@.len(),
            tally.0@ == old(self).compactions(outcomes@, outcomes@.len()),
            tally.1 == last_committed(first, outcomes@, outcomes@.len()),
    {
        let mut compactions: Vec<Compaction> = Vec::new();
        let mut last: Option<u64> = None;
        let mut i: usize = 0;
        let quiet = match self.mode {
            WorkloadMode::Quiet { .. } => true,
            _ => false,
        };
        while i < outcomes.len()
            invariant
                i <= outcomes@.len(),
                first + outcomes@.len() <= u32::MAX,
                old(self).acknowledged <= first,
                quiet == (self.mode is Quiet),
                *self == (ClientScript {
                    acknowledged: self.acknowledged,
                    max_slot: max_slot_after(old(self).max_slot, outcomes@, i as nat),
                    ..*old(self)
                }),
                self.acknowledged == old(self).acknowledged + committed(outcomes@, i as nat),
                self.acknowledged <= first + i,
                compactions@ == old(self).compactions(outcomes@, i as nat),
                last == last_committed(first, outcomes@, i as nat),
            decreases outcomes@.len() - i,
        {
            if let Some(ack) = outcomes[i] {
                self.acknowledged = self.acknowledged + 1;
                last = Some(first + i as u64);
                if let Some(slot) = ack.slot {
                    self.max_slot = match self.max_slot {
                        Some(max) => if slot > max {
                            Some(slot)
                        } else {
                            Some(max)
                        },
                        None => Some(slot),
                    };
                }
                assert(self.max_slot == max_slot_after(
                    old(self).max_slot,
                    outcomes@,
                    (i + 1) as nat,
                ));
                if let (Some(up_to), Some(leader)) = (self.max_slot, ack.leader) {
                    let node: usize = if leader <= usize::MAX as u64 {
                        leader as usize
                    } else {
                        0
                    };
                    if !quiet && node < self.nodes {
                        compactions.push(Compaction { node, up_to });
                    }
                }
            }
            i = i + 1;
        }
        (compactions, last)
    }

    /// Take in what became of the last action: the next one, and the
    /// compactions to ask for on the side.
    pub fn step(&mut self, event: &Event, cancelled: bool) -> (stepped: (Action, Vec<Compaction>))
        requires
            old(self).valid(),
            old(self).answers(*event),
        ensures
            final(self).valid(),
            *final(self) == old(self).after(*event, cancelled),
            stepped.0 == old(self).stepped(*event, cancelled).1,
            stepped.1@ == match *event {
                Event::Wrote { outcomes } => old(self).compactions(outcomes@, outcomes@.len()),
                _ => seq![],
            },
    {
        let mut compactions: Vec<Compaction> = Vec::new();
        let action = match event {
            Event::Wrote { outcomes } => {
                if let Phase::Writing { first, end } = self.phase {
                    let (asked, last) = self.tally(first, outcomes);
                    compactions = asked;
                    match self.mode {
                        WorkloadMode::Quiet { .. } => {
                            self.phase = Phase::Waiting;
                            self.tail()
                        },
                        WorkloadMode::Sequential => {
                            self.phase = Phase::Reading { end };
                            Action::Read { seq: first }
                        },
                        WorkloadMode::Pipelined { .. } => {
                            if let Some(seq) = last {
                                self.phase = Phase::Reading { end };
                                Action::Read { seq }
                            } else {
                                self.phase = Phase::Pausing { end };
                                Action::Gap
                            }
                        },
                    }
                } else {
                    Action::Finish
                }
            },
            Event::Read { acknowledged } => {
                if let Phase::Reading { end } = self.phase {
                    if *acknowledged {
                        self.reads_acknowledged = self.reads_acknowledged + 1;
                    }
                    self.phase = Phase::Pausing { end };
                    Action::Gap
                } else {
                    Action::Finish
                }
            },
            Event::Woke => match self.phase {
                Phase::Pausing { end } => {
                    let (phase, action) = self.begin_batch(end, cancelled);
                    self.phase = phase;
                    action
                },
                Phase::Idling => {
                    if cancelled {
                        self.phase = Phase::Waiting;
                        self.tail()
                    } else {
                        self.phase = Phase::Writing { first: 0, end: 1 };
                        Action::Write { first: 0, end: 1 }
                    }
                },
                Phase::Waiting => {
                    self.phase = Phase::Settling;
                    Action::Settle
                },
                _ => {
                    self.phase = Phase::Finished;
                    Action::Finish
                },
            },
        };
        (action, compactions)
    }
}

/// The actions that `events` call for, and the compactions asked for with each.
pub open spec fn actions(script: ClientScript, events: Seq<(Event, bool)>) -> Seq<Action>
    decreases events.len(),
{
    if events.len() == 0 {
        seq![]
    } else {
        let first = events[0];
        seq![script.stepped(first.0, first.1).1] + actions(
            script.after(first.0, first.1),
            events.skip(1),
        )
    }
}

/// Every event answers what the script then waits for.
pub open spec fn orderly(script: ClientScript, events: Seq<(Event, bool)>) -> bool
    decreases events.len(),
{
    events.len() > 0 ==> {
        &&& script.answers(events[0].0)
        &&& orderly(script.after(events[0].0, events[0].1), events.skip(1))
    }
}

/// How many proposals `actions` send.
pub open spec fn proposals(actions: Seq<Action>) -> int
    decreases actions.len(),
{
    if actions.len() == 0 {
        0
    } else {
        proposals(actions.skip(1)) + match actions[0] {
            Action::Write { first, end } => end - first,
            _ => 0,
        }
    }
}

/// One decision, then silence: a quiet run sends at most one proposal, never
/// reads and never asks for a compaction, whatever comes back.
pub proof fn law_quiet_run_decides_once(script: ClientScript, events: Seq<(Event, bool)>)
    requires
        script.valid(),
        script.mode is Quiet,
        script.phase is Idling,
        orderly(script, events),
    ensures
        proposals(actions(script, events)) <= 1,
        forall|i: int|
            0 <= i < actions(script, events).len() ==> !((#[trigger] actions(script, events)[i])
                is Read),
        forall|outcomes: Seq<Option<WriteAck>>, n: nat| #[trigger]
            script.compactions(outcomes, n) == Seq::<Compaction>::empty(),
{
    lemma_quiet(script, events);
    assert forall|outcomes: Seq<Option<WriteAck>>, n: nat| #[trigger]
        script.compactions(outcomes, n) == Seq::<Compaction>::empty() by {
        lemma_quiet_asks_nothing(script, outcomes, n);
    }
}

proof fn lemma_quiet_asks_nothing(
    script: ClientScript,
    outcomes: Seq<Option<WriteAck>>,
    n: nat,
)
    requires
        script.mode is Quiet,
    ensures
        script.compactions(outcomes, n) == Seq::<Compaction>::empty(),
    decreases n,
{
    if n > 0 {
        lemma_quiet_asks_nothing(script, outcomes, (n - 1) as nat);
    }
}

proof fn lemma_quiet(script: ClientScript, events: Seq<(Event, bool)>)
    requires
        script.mode is Quiet,
        script.phase !is Reading,
        script.phase !is Pausing,
        orderly(script, events),
    ensures
        proposals(actions(script, events)) <= if script.phase is Idling {
            1int
        } else {
            0
        },
        forall|i: int|
            0 <= i < actions(script, events).len() ==> !((#[trigger] actions(script, events)[i])
                is Read),
    decreases events.len(),
{
    if events.len() > 0 {
        let next = script.after(events[0].0, events[0].1);
        let rest = actions(next, events.skip(1));
        let all = actions(script, events);
        lemma_quiet(next, events.skip(1));
        assert(all.skip(1) =~= rest);
        assert forall|i: int| 0 <= i < all.len() implies !((#[trigger] all[i]) is Read) by {
            if i > 0 {
                assert(all[i] == rest[i - 1]);
            }
        }
    }
}

/// The sequential client's history alternates: the write of a request is
/// followed by its read, whatever became of the write, and the read by the
/// next request's write.
pub proof fn law_sequential_history_alternates(
    script: ClientScript,
    wrote: Event,
    read: Event,
    woke: Event,
    seq: u64,
)
    requires
        script.valid(),
        script.mode is Sequential,
        script.phase matches Phase::Writing { first, end } && first == seq,
        script.answers(wrote),
        script.after(wrote, false).answers(read),
        script.after(wrote, false).after(read, false).answers(woke),
    ensures
        ({
            let reading = script.after(wrote, false);
            let pausing = reading.after(read, false);
            &&& script.stepped(wrote, false).1 == (Action::Read { seq })
            &&& reading.stepped(read, false).1 == Action::Gap
            &&& pausing.stepped(woke, false).1 == if seq + 1 < script.requests {
                Action::Write { first: (seq + 1) as u64, end: (seq + 2) as u64 }
            } else {
                Action::Settle
            }
        }),
{
}

} // verus!
