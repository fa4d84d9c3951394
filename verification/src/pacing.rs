//! What a client's script does with the outcomes it is handed: what it reads
//! back, what it tallies, which truncations it asks for, and how its batches and
//! sleeps follow one another.
use crate::CHAOS_DURATION_MS;
use crate::workload::{
    Action, Answer, Attempt, ClientScript, Compaction, Event, Phase, WorkloadMode, WriteAck, committed, depth, home,
    last_committed, lemma_nth_target, max_slot_after, nth_target, spelled,
};
use vstd::prelude::*;

verus! {

/// The proposals of a batch that committed.
pub open spec fn commits(outcomes: Seq<Option<WriteAck>>, n: nat) -> Set<int> {
    Set::new(|i: int| 0 <= i < n && outcomes[i] is Some)
}

/// The outcome at `i` names `slot`.
pub open spec fn names_slot(outcomes: Seq<Option<WriteAck>>, i: int, slot: u64) -> bool {
    0 <= i < outcomes.len() && (outcomes[i] matches Some(ack) && ack.slot == Some(slot))
}

proof fn lemma_last_committed(first: u64, outcomes: Seq<Option<WriteAck>>, n: nat)
    requires
        n <= outcomes.len(),
        first + outcomes.len() <= u64::MAX,
    ensures
        match last_committed(first, outcomes, n) {
            Some(seq) => {
                &&& first <= seq < first + n
                &&& outcomes[seq - first] is Some
                &&& forall|i: int| seq - first < i < n ==> (#[trigger] outcomes[i]) is None
            },
            None => forall|i: int| 0 <= i < n ==> (#[trigger] outcomes[i]) is None,
        },
    decreases n,
{
    if n > 0 {
        lemma_last_committed(first, outcomes, (n - 1) as nat);
    }
}

/// After a pipelined batch the client reads back the last proposal of the batch
/// that committed, however many before it did not, and pauses only where none
/// committed.
pub proof fn law_batch_reads_its_last_commit(
    s: ClientScript,
    first: u64,
    end: u64,
    outcomes: Vec<Option<WriteAck>>,
    cancelled: bool,
)
    requires
        s.valid(),
        s.mode is Pipelined,
        s.phase == (Phase::Writing { first, end }),
        s.answers(Event::Wrote { outcomes }),
    ensures
        ({
            let (phase, action) = s.stepped(Event::Wrote { outcomes }, cancelled);
            match action {
                Action::Read { seq } => {
                    &&& first <= seq < end
                    &&& outcomes@[seq - first] is Some
                    &&& forall|i: int|
                        seq - first < i < outcomes@.len() ==> (#[trigger] outcomes@[i]) is None
                    &&& phase == Phase::Reading { end }
                },
                Action::Gap => {
                    &&& forall|i: int|
                        0 <= i < outcomes@.len() ==> (#[trigger] outcomes@[i]) is None
                    &&& phase == Phase::Pausing { end }
                },
                _ => false,
            }
        }),
{
    lemma_last_committed(first, outcomes@, outcomes@.len());
}

/// A sequential client reads back the proposal it just made, whatever came of
/// it; a quiet one reads nothing, and waits.
pub proof fn law_single_proposal_is_followed_up(
    s: ClientScript,
    first: u64,
    end: u64,
    outcomes: Vec<Option<WriteAck>>,
    cancelled: bool,
)
    requires
        s.valid(),
        s.mode !is Pipelined,
        s.phase == (Phase::Writing { first, end }),
        s.answers(Event::Wrote { outcomes }),
    ensures
        outcomes@.len() == 1,
        ({
            let (phase, action) = s.stepped(Event::Wrote { outcomes }, cancelled);
            &&& s.mode is Sequential ==> action == Action::Read { seq: first } && phase
                == Phase::Reading { end }
            &&& s.mode is Quiet ==> action is Idle && phase == Phase::Waiting
        }),
{
}

proof fn lemma_commits(outcomes: Seq<Option<WriteAck>>, n: nat)
    requires
        n <= outcomes.len(),
    ensures
        commits(outcomes, n).finite(),
        commits(outcomes, n).len() == committed(outcomes, n),
        commits(outcomes, n).len() <= n,
    decreases n,
{
    if n == 0 {
        assert(commits(outcomes, 0) =~= Set::<int>::empty());
    } else {
        let m = (n - 1) as nat;
        lemma_commits(outcomes, m);
        if outcomes[n - 1] is Some {
            assert(commits(outcomes, n) =~= commits(outcomes, m).insert(n - 1));
        } else {
            assert(commits(outcomes, n) =~= commits(outcomes, m));
        }
    }
}

/// A batch adds as many acknowledgements as it has committed proposals, wherever
/// they stand in it, and nothing else but the slots it names.
pub proof fn law_batch_counts_its_commits(
    s: ClientScript,
    first: u64,
    end: u64,
    outcomes: Vec<Option<WriteAck>>,
    cancelled: bool,
)
    requires
        s.valid(),
        s.phase == (Phase::Writing { first, end }),
        s.answers(Event::Wrote { outcomes }),
    ensures
        ({
            let after = s.after(Event::Wrote { outcomes }, cancelled);
            &&& after.acknowledged == s.acknowledged + commits(outcomes@, outcomes@.len()).len()
            &&& after.reads_acknowledged == s.reads_acknowledged
            &&& after.mode == s.mode
            &&& after.requests == s.requests
            &&& after.nodes == s.nodes
        }),
{
    lemma_commits(outcomes@, outcomes@.len());
}

/// Reads are tallied apart from proposals, and a sleep tallies nothing.
pub proof fn law_reads_are_tallied_apart(s: ClientScript, acknowledged: bool, cancelled: bool)
    requires
        s.valid(),
        s.phase is Reading,
    ensures
        ({
            let read = s.after(Event::Read { acknowledged }, cancelled);
            &&& read.acknowledged == s.acknowledged
            &&& read.max_slot == s.max_slot
            &&& acknowledged ==> read.reads_acknowledged == s.reads_acknowledged + 1
            &&& !acknowledged ==> read.reads_acknowledged == s.reads_acknowledged
            &&& read.phase == Phase::Pausing { end: s.phase->Reading_end }
            &&& s.stepped(Event::Read { acknowledged }, cancelled).1 == Action::Gap
            &&& read.mode == s.mode && read.requests == s.requests && read.nodes == s.nodes
            &&& s.after(Event::Woke, cancelled).acknowledged == s.acknowledged
            &&& s.after(Event::Woke, cancelled).reads_acknowledged == s.reads_acknowledged
            &&& s.after(Event::Woke, cancelled).max_slot == s.max_slot
        }),
{
}

proof fn lemma_highest_slot(before: Option<u64>, outcomes: Seq<Option<WriteAck>>, n: nat)
    requires
        n <= outcomes.len(),
    ensures
        match max_slot_after(before, outcomes, n) {
            Some(max) => {
                &&& before matches Some(slot) ==> slot <= max
                &&& forall|i: int, slot: u64|
                    i < n && #[trigger] names_slot(outcomes, i, slot) ==> slot <= max
                &&& before == Some(max) || exists|i: int|
                    i < n && #[trigger] names_slot(outcomes, i, max)
            },
            None => {
                &&& before is None
                &&& forall|i: int, slot: u64| i < n ==> !#[trigger] names_slot(outcomes, i, slot)
            },
        },
    decreases n,
{
    if n > 0 {
        let m = (n - 1) as nat;
        lemma_highest_slot(before, outcomes, m);
        if let Some(ack) = outcomes[n - 1] {
            if let Some(slot) = ack.slot {
                assert(names_slot(outcomes, n - 1, slot));
            }
        }
        if let Some(max) = max_slot_after(before, outcomes, m) {
            if before != Some(max) {
                let i = choose|i: int| i < m && #[trigger] names_slot(outcomes, i, max);
                assert(i < n && names_slot(outcomes, i, max));
            }
        }
    }
}

/// The slot on record after a batch is the highest that was on record or that
/// any of its outcomes names: none is above it, and it is one of them.
pub proof fn law_highest_slot_is_kept(
    s: ClientScript,
    outcomes: Vec<Option<WriteAck>>,
    cancelled: bool,
)
    ensures
        match s.after(Event::Wrote { outcomes }, cancelled).max_slot {
            Some(max) => {
                &&& s.max_slot matches Some(slot) ==> slot <= max
                &&& forall|i: int, slot: u64| #[trigger]
                    names_slot(outcomes@, i, slot) ==> slot <= max
                &&& s.max_slot == Some(max) || exists|i: int| #[trigger]
                    names_slot(outcomes@, i, max)
            },
            None => {
                &&& s.max_slot is None
                &&& forall|i: int, slot: u64| !#[trigger] names_slot(outcomes@, i, slot)
            },
        },
{
    let n = outcomes@.len();
    lemma_highest_slot(s.max_slot, outcomes@, n);
    assert forall|i: int, slot: u64| #[trigger] names_slot(outcomes@, i, slot) implies i < n by {}
}

/// A commit whose leader is known and within the cluster asks that leader, and no
/// other, to truncate up to the highest slot known by then; without a leader,
/// without a slot, or in a quiet run, nothing is asked.
pub proof fn law_commit_asks_its_leader(s: ClientScript, outcomes: Seq<Option<WriteAck>>, i: int)
    requires
        0 <= i < outcomes.len(),
        s.nodes > 0,
    ensures
        match s.compaction(outcomes, i) {
            Some(asked) => {
                &&& s.mode !is Quiet
                &&& outcomes[i] is Some
                &&& outcomes[i]->0.leader is Some
                &&& outcomes[i]->0.leader->0 <= usize::MAX ==> asked.node
                    == outcomes[i]->0.leader->0
                &&& asked.node < s.nodes
                &&& s.max_slot matches Some(slot) ==> slot <= asked.up_to
                &&& forall|j: int, slot: u64|
                    j <= i && #[trigger] names_slot(outcomes, j, slot) ==> slot <= asked.up_to
                &&& s.max_slot == Some(asked.up_to) || exists|j: int|
                    j <= i && #[trigger] names_slot(outcomes, j, asked.up_to)
            },
            None => {
                ||| s.mode is Quiet
                ||| outcomes[i] is None
                ||| outcomes[i]->0.leader is None
                ||| s.nodes <= outcomes[i]->0.leader->0
                ||| s.max_slot is None && forall|j: int, slot: u64|
                    j <= i ==> !#[trigger] names_slot(outcomes, j, slot)
            },
        },
{
    lemma_highest_slot(s.max_slot, outcomes, (i + 1) as nat);
    if let Some(asked) = s.compaction(outcomes, i) {
        if s.max_slot != Some(asked.up_to) {
            let j = choose|j: int| j < i + 1 && #[trigger] names_slot(outcomes, j, asked.up_to);
            assert(j <= i && names_slot(outcomes, j, asked.up_to));
        }
    }
}

proof fn lemma_asked_within(s: ClientScript, outcomes: Seq<Option<WriteAck>>, n: nat)
    requires
        n <= outcomes.len(),
    ensures
        s.compactions(outcomes, n).len() > 0 ==> max_slot_after(s.max_slot, outcomes, n) is Some,
        forall|a: int|
            0 <= a < s.compactions(outcomes, n).len() ==> (#[trigger] s.compactions(
                outcomes,
                n,
            )[a]).up_to <= max_slot_after(s.max_slot, outcomes, n)->0,
    decreases n,
{
    if n > 0 {
        let m = (n - 1) as nat;
        lemma_asked_within(s, outcomes, m);
        let before = s.compactions(outcomes, m);
        let asked = s.compactions(outcomes, n);
        assert forall|a: int| 0 <= a < asked.len() implies (#[trigger] asked[a]).up_to
            <= max_slot_after(s.max_slot, outcomes, n)->0 by {
            if a < before.len() {
                assert(before[a] == asked[a]);
            }
        }
    }
}

/// A batch asks for exactly the truncations its outcomes give rise to, and along
/// them the slot asked for never goes down.
pub proof fn law_compactions_follow_the_outcomes(
    s: ClientScript,
    outcomes: Seq<Option<WriteAck>>,
    n: nat,
)
    requires
        n <= outcomes.len(),
    ensures
        ({
            let asked = s.compactions(outcomes, n);
            &&& forall|i: int|
                0 <= i < n && (#[trigger] s.compaction(outcomes, i)) is Some ==> asked.contains(
                    s.compaction(outcomes, i)->0,
                )
            &&& forall|c: Compaction| #[trigger]
                asked.contains(c) ==> exists|i: int|
                    0 <= i < n && #[trigger] s.compaction(outcomes, i) == Some(c)
            &&& forall|a: int, b: int|
                0 <= a < b < asked.len() ==> (#[trigger] asked[a]).up_to <= (
                #[trigger] asked[b]).up_to
            &&& asked.len() <= commits(outcomes, n).len()
        }),
    decreases n,
{
    lemma_commits(outcomes, n);
    if n > 0 {
        let m = (n - 1) as nat;
        law_compactions_follow_the_outcomes(s, outcomes, m);
        lemma_commits(outcomes, m);
        let before = s.compactions(outcomes, m);
        let asked = s.compactions(outcomes, n);
        assert forall|i: int|
            0 <= i < n && (#[trigger] s.compaction(outcomes, i)) is Some implies asked.contains(
            s.compaction(outcomes, i)->0,
        ) by {
            let c = s.compaction(outcomes, i)->0;
            if i < m {
                let a = choose|a: int| 0 <= a < before.len() && before[a] == c;
                assert(asked[a] == c);
            } else {
                assert(asked[asked.len() - 1] == c);
            }
        }
        assert forall|c: Compaction| #[trigger] asked.contains(c) implies exists|i: int|
            0 <= i < n && #[trigger] s.compaction(outcomes, i) == Some(c) by {
            let a = choose|a: int| 0 <= a < asked.len() && asked[a] == c;
            if a < before.len() {
                assert(before[a] == c);
                assert(before.contains(c));
                let i = choose|i: int|
                    0 <= i < m && #[trigger] s.compaction(outcomes, i) == Some(c);
                assert(0 <= i < n && s.compaction(outcomes, i) == Some(c));
            } else {
                assert(s.compaction(outcomes, m as int) == Some(c));
            }
        }
        if s.compaction(outcomes, m as int) is Some {
            lemma_asked_within(s, outcomes, n);
            lemma_asked_within(s, outcomes, m);
        }
        assert forall|a: int, b: int| 0 <= a < b < asked.len() implies (
        #[trigger] asked[a]).up_to <= (#[trigger] asked[b]).up_to by {
            assert(before[a] == asked[a]);
            if b < before.len() {
                assert(before[b] == asked[b]);
            }
        }
        assert(asked.len() <= commits(outcomes, n).len());
    }
}

/// Batches follow one another without a gap or an overlap: each begins where the
/// one before it ended, and takes its full depth or all that is left. A client
/// that is cancelled, or has nothing left, settles.
pub proof fn law_batches_abut(s: ClientScript, end: u64, cancelled: bool)
    requires
        s.valid(),
        s.phase == (Phase::Pausing { end }),
    ensures
        ({
            let (phase, action) = s.stepped(Event::Woke, cancelled);
            if cancelled || end == s.requests {
                action == Action::Settle && phase == Phase::Settling
            } else {
                match action {
                    Action::Write { first, end: next } => {
                        &&& first == end
                        &&& end < next <= s.requests
                        &&& next - end <= depth(s.mode)
                        &&& next == s.requests || next - end == depth(s.mode)
                        &&& phase == Phase::Writing { first, end: next }
                    },
                    _ => false,
                }
            }
        }),
{
}

/// A script starts with nothing tallied, at its first proposal; a quiet one
/// idles first, for the time its mode drew.
pub proof fn law_script_starts_at_its_first_proposal(
    mode: WorkloadMode,
    requests: u32,
    nodes: usize,
    cancelled: bool,
)
    requires
        mode matches WorkloadMode::Pipelined { depth } ==> depth >= 1,
    ensures
        ({
            let (s, action) = ClientScript::opened(mode, requests, nodes, cancelled);
            &&& s.mode == mode && s.requests == requests && s.nodes == nodes
            &&& s.acknowledged == 0 && s.reads_acknowledged == 0 && s.max_slot is None
            &&& match mode {
                WorkloadMode::Quiet { delay_ms } => action == Action::Idle { ms: delay_ms }
                    && s.phase == Phase::Idling,
                _ => if cancelled || requests == 0 {
                    action == Action::Settle && s.phase == Phase::Settling
                } else {
                    action matches Action::Write { first, end } && first == 0 && 0 < end <= requests
                        && end <= depth(mode) && (end == requests || end == depth(mode)) && s.phase
                        == Phase::Writing { first, end }
                },
            }
        }),
{
}

/// A quiet run makes one proposal, or none where it is cancelled, and its two
/// idles fill the chaos window together.
pub proof fn law_quiet_idles_fill_the_window(s: ClientScript, cancelled: bool)
    requires
        s.valid(),
        s.mode is Quiet,
        s.mode->delay_ms <= CHAOS_DURATION_MS,
    ensures
        s.quiet_tail() matches Action::Idle { ms } && ms + s.mode->delay_ms == CHAOS_DURATION_MS,
        s.phase == Phase::Idling ==> {
            let (phase, action) = s.stepped(Event::Woke, cancelled);
            &&& cancelled ==> phase == Phase::Waiting && action == s.quiet_tail()
            &&& !cancelled ==> phase == (Phase::Writing { first: 0, end: 1 }) && action == (
            Action::Write { first: 0, end: 1 })
        },
        s.phase == Phase::Waiting ==> s.stepped(Event::Woke, cancelled) == (
            Phase::Settling,
            Action::Settle,
        ),
        s.phase == Phase::Settling ==> s.stepped(Event::Woke, cancelled) == (
            Phase::Finished,
            Action::Finish,
        ),
        forall|outcomes: Vec<Option<WriteAck>>, i: int|
            (#[trigger] s.compaction(outcomes@, i)) is None,
{
}

/// Four coins read as a number of sixteen, three as one of eight, first coin
/// heaviest.
pub proof fn law_coins_spell_a_number(bits: Seq<bool>)
    ensures
        bits.len() == 3 ==> spelled(bits) == (if bits[0] {
            4nat
        } else {
            0
        }) + (if bits[1] {
            2nat
        } else {
            0
        }) + (if bits[2] {
            1nat
        } else {
            0
        }),
        bits.len() == 4 ==> spelled(bits) == (if bits[0] {
            8nat
        } else {
            0
        }) + (if bits[1] {
            4nat
        } else {
            0
        }) + (if bits[2] {
            2nat
        } else {
            0
        }) + (if bits[3] {
            1nat
        } else {
            0
        }),
{
    reveal_with_fuel(spelled, 5);
    if bits.len() == 3 || bits.len() == 4 {
        let a = bits.drop_last();
        let b = a.drop_last();
        let c = b.drop_last();
        assert(a.last() == bits[bits.len() - 2]);
        assert(b.last() == bits[bits.len() - 3]);
        if bits.len() == 4 {
            assert(c.last() == bits[0]);
        }
    }
}

/// The quiet coin decides first and the pipelining coin next. A quiet idle is a
/// whole number of sixteenths of the chaos window, less than all of it, and no
/// two draws idle alike; a pipeline is two to eight proposals deep.
pub proof fn law_mode_follows_its_coins(
    quiet: bool,
    pipelined: bool,
    bits: Seq<bool>,
    others: Seq<bool>,
)
    requires
        bits.len() == if quiet {
            4int
        } else if pipelined {
            3
        } else {
            0
        },
        others.len() == bits.len(),
    ensures
        ({
            let mode = WorkloadMode::of_coins(quiet, pipelined, bits);
            &&& mode is Quiet <==> quiet
            &&& mode is Pipelined <==> !quiet && pipelined
            &&& mode is Sequential <==> !quiet && !pipelined
            &&& quiet ==> mode->delay_ms * 16 == spelled(bits) * CHAOS_DURATION_MS && mode->delay_ms
                < CHAOS_DURATION_MS
            &&& quiet && bits != others ==> mode != WorkloadMode::of_coins(quiet, pipelined, others)
            &&& mode is Pipelined ==> 2 <= mode->depth <= 8 && (mode->depth - 2 == spelled(bits)
                || mode->depth == 2 && spelled(bits) == 7)
        }),
{
    law_coins_spell_a_number(bits);
    law_coins_spell_a_number(others);
    if quiet && bits != others {
        if spelled(bits) == spelled(others) {
            assert(bits =~= others);
        }
    }
}

/// An operation starts at the node its number names, round the cluster, and each
/// further attempt goes to the node after the last one tried: within a round of
/// attempts no node is tried twice.
pub proof fn law_attempts_go_round(seq: u64, nodes: usize, j: nat, k: nat)
    requires
        nodes > 0,
        j < k < j + nodes,
    ensures
        seq < nodes ==> nth_target(seq, nodes, 0) == seq,
        0 <= nth_target(seq, nodes, k) < nodes,
        nth_target(seq, nodes, j) != nth_target(seq, nodes, k),
        nth_target(seq, nodes, j) + 1 < nodes ==> nth_target(seq, nodes, j + 1) == nth_target(
            seq,
            nodes,
            j,
        ) + 1,
        nth_target(seq, nodes, j) + 1 == nodes ==> nth_target(seq, nodes, j + 1) == 0,
{
    lemma_nth_target(seq, nodes, j);
    lemma_nth_target(seq, nodes, k);
    lemma_nth_target(seq, nodes, j + 1);
    let n = nodes as int;
    let at = nth_target(seq, nodes, j);
    if seq < nodes {
        vstd::arithmetic::div_mod::lemma_small_mod(seq as nat, nodes as nat);
    }
    if at + 1 < n {
        vstd::arithmetic::div_mod::lemma_small_mod((at + 1) as nat, nodes as nat);
    } else {
        vstd::arithmetic::div_mod::lemma_mod_self_0(n);
    }
    let x = home(seq, nodes) + j;
    let y = home(seq, nodes) + k;
    if x % n == y % n {
        vstd::arithmetic::div_mod::lemma_fundamental_div_mod(x, n);
        vstd::arithmetic::div_mod::lemma_fundamental_div_mod(y, n);
        let p = x / n;
        let q = y / n;
        assert(y - x == n * q - n * p);
        assert(n * q - n * p == n * (q - p)) by (nonlinear_arith);
        assert(0 < n * (q - p) < n);
        assert(false) by (nonlinear_arith)
            requires
                0 < n * (q - p) < n,
                n > 0,
        ;
    }
}

/// An operation settles exactly with an answer that says it committed; whatever
/// else comes back, or nothing, sends it on to the next node round the cluster. An
/// answer to another operation is told as such, and settles nothing by that.
pub proof fn law_attempt_goes_on_until_it_settles(attempt: Attempt, answer: Option<Answer>)
    requires
        attempt.valid(),
        attempt.tries < u64::MAX,
    ensures
        ({
            let shown = attempt.shown(answer);
            let after = attempt.after(answer);
            &&& shown.settled <==> answer is Some && answer->0.committed
            &&& shown.misdirected <==> answer is Some && answer->0.seq != attempt.seq
            &&& shown.settled ==> after == attempt
            &&& !shown.settled ==> {
                &&& after.tries == attempt.tries + 1
                &&& after.target == if attempt.target + 1 < attempt.nodes {
                    attempt.target + 1
                } else {
                    0
                }
                &&& attempt.nodes > 1 ==> after.target != attempt.target
                &&& after.seq == attempt.seq && after.nodes == attempt.nodes
            }
        }),
{
    let n = attempt.nodes as int;
    if attempt.target + 1 < n {
        vstd::arithmetic::div_mod::lemma_small_mod((attempt.target + 1) as nat, n as nat);
    } else {
        vstd::arithmetic::div_mod::lemma_mod_self_0(n);
    }
}

} // verus!
