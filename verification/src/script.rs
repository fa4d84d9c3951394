//! Scripted cases: a case is a list of lines, carried out in order, each owed or
//! not. The caller performs each act and reports whether it held.
use vstd::prelude::*;

verus! {

/// One act of a script. `applied` names a state by how many of the script's
/// commands it has applied.
#[derive(Clone, Copy, Debug, PartialEq, Eq, Structural)]
pub enum Act {
    /// Decide `count` commands, from `seq_base` on, in the slots from
    /// `slot_base` on, asking no node that is excluded.
    Prime { count: u64, exclude: Option<usize>, seq_base: u64, slot_base: u64 },
    /// Wait for the nodes from `from` to before `to` to hold the first `slots`
    /// slots clean and to have applied that many commands durably.
    AwaitReplicated { from: usize, to: usize, slots: u64, applied: usize },
    /// Have a truncation accepted.
    Compact { up_to: u64, exclude: Option<usize> },
    /// Wait for the nodes from `from` to before `to` to truncate at `floor`.
    AwaitFloors { from: usize, to: usize, floor: u64 },
    /// Wait for every node to retain the point at `point`, whole, above
    /// `floor`.
    AwaitPoint { floor: u64, point: u64, applied: usize },
    /// Inject the case's own corruption, and restart what it restarts.
    Inject,
    /// Rot one node's live snapshot, restarting it or not.
    RotSnapshot { node: usize, restart: bool },
    Hold { node: usize },
    Release { node: usize },
    Sleep { ms: u64 },
    /// Note the last refusal below a floor seen so far.
    MarkRefusals,
    /// Wait for a truncated acceptor to refuse a campaign below its floor.
    AwaitRefusal,
    /// Wait for the node that fell behind to install a whole snapshot.
    AwaitInstall { rank: u64, index: u64 },
    /// Wait for every node to serve that state.
    AwaitAll { applied: usize },
    /// Watch every node stay at that state.
    HoldAll { applied: usize },
    /// Wait for every chunk with a clean copy somewhere to be clean everywhere.
    AwaitChunks,
    /// Watch every chunk without one stay faulty.
    HoldChunks,
}

/// What a line owes.
#[derive(Clone, Copy, Debug, PartialEq, Eq, Structural)]
pub enum Owed {
    Nothing,
    /// It must hold.
    Judged,
    /// It must hold, or the case ends there.
    Vital,
}

#[derive(Clone, Copy, Debug, PartialEq, Eq, Structural)]
pub struct Line {
    pub act: Act,
    pub owed: Owed,
    /// Passed over, as not held, unless the line before it held.
    pub gated: bool,
}

pub open spec fn line(act: Act, owed: Owed) -> Line {
    Line { act, owed, gated: false }
}

/// A script under way.
pub struct CaseRun {
    pub script: Vec<Line>,
    /// Whether each line so far held.
    pub held: Vec<bool>,
    pub aborted: bool,
}

/// What a report led to.
#[derive(Clone, Copy, Debug, PartialEq, Eq, Structural)]
pub struct Reported {
    /// The line owed what it did not hold.
    pub violated: bool,
    /// The gated line passed over with it, where that one owed its act too.
    pub passed_over: Option<Act>,
    /// The case ends there.
    pub aborted: bool,
}

/// The record after a line held or not; a gated line is recorded with it where
/// it is passed over.
pub open spec fn recorded(script: Seq<Line>, held: Seq<bool>, ok: bool) -> Seq<bool> {
    let now = held.push(ok);
    if !ok && now.len() < script.len() && script[now.len() as int].gated {
        now.push(false)
    } else {
        now
    }
}

/// The act of the gated line that is passed over where the line under way held
/// or not, if that act was owed. A case that ends there owes nothing more.
pub open spec fn passed_over(script: Seq<Line>, held: Seq<bool>, ok: bool) -> Option<Act> {
    let at = held.len() as int;
    if !ok && script[at].owed != Owed::Vital && at + 1 < script.len() && script[at + 1].gated
        && script[at + 1].owed != Owed::Nothing {
        Some(script[at + 1].act)
    } else {
        None
    }
}

/// What a report of the line under way leads to.
pub open spec fn told(script: Seq<Line>, held: Seq<bool>, ok: bool) -> Reported {
    let owed = script[held.len() as int].owed;
    Reported {
        violated: !ok && owed != Owed::Nothing,
        passed_over: passed_over(script, held, ok),
        aborted: !ok && owed == Owed::Vital,
    }
}

impl CaseRun {
    pub open spec fn valid(&self) -> bool {
        self.held@.len() <= self.script@.len()
    }

    pub open spec fn over(&self) -> bool {
        self.aborted || self.held@.len() == self.script@.len()
    }

    /// The case ran to its end, and its last `n` lines held.
    pub open spec fn tail(&self, n: int) -> bool {
        &&& !self.aborted
        &&& self.held@.len() == self.script@.len()
        &&& n <= self.held@.len()
        &&& forall|i: int| self.held@.len() - n <= i < self.held@.len() ==> #[trigger] self.held@[i]
    }

    pub fn start(script: Vec<Line>) -> (run: CaseRun)
        ensures
            run.valid(),
            run.script@ == script@,
            run.held@ == Seq::<bool>::empty(),
            !run.aborted,
    {
        CaseRun { script, held: Vec::new(), aborted: false }
    }

    /// The act to carry out next, if the case is not over.
    pub fn next(&self) -> (act: Option<Act>)
        requires
            self.valid(),
        ensures
            act == if self.over() {
                None
            } else {
                Some(self.script@[self.held@.len() as int].act)
            },
    {
        if self.aborted || self.held.len() == self.script.len() {
            None
        } else {
            Some(self.script[self.held.len()].act)
        }
    }

    /// The owed act that is passed over where the act under way held or not.
    pub fn passed_over(&self, ok: bool) -> (act: Option<Act>)
        requires
            self.valid(),
            !self.over(),
        ensures
            act == passed_over(self.script@, self.held@, ok),
    {
        let at = self.held.len();
        if ok || self.script[at].owed == Owed::Vital || self.script.len() - at == 1 {
            return None;
        }
        let following = self.script[at + 1];
        if following.gated && following.owed != Owed::Nothing {
            Some(following.act)
        } else {
            None
        }
    }

    /// Report whether that act held. A gated line that is passed over fails with
    /// it.
    pub fn report(&mut self, ok: bool) -> (reported: Reported)
        requires
            old(self).valid(),
            !old(self).over(),
        ensures
            final(self).valid(),
            final(self).script@ == old(self).script@,
            final(self).held@ == recorded(old(self).script@, old(self).held@, ok),
            reported == told(old(self).script@, old(self).held@, ok),
            final(self).aborted == reported.aborted,
    {
        let owed = self.script[self.held.len()].owed;
        let passed_over = self.passed_over(ok);
        self.held.push(ok);
        if !ok && self.held.len() < self.script.len() && self.script[self.held.len()].gated {
            self.held.push(false);
        }
        self.aborted = !ok && owed == Owed::Vital;
        Reported { violated: !ok && owed != Owed::Nothing, passed_over, aborted: self.aborted }
    }

    /// Whether the case ran to its end with its last `n` lines held.
    pub fn tail_held(&self, n: usize) -> (held: bool)
        ensures
            held == self.tail(n as int),
    {
        if self.aborted || self.held.len() != self.script.len() || n > self.held.len() {
            return false;
        }
        let mut i = self.held.len() - n;
        while i < self.held.len()
            invariant
                n <= self.held@.len(),
                self.held@.len() - n <= i <= self.held@.len(),
                forall|j: int| self.held@.len() - n <= j < i ==> #[trigger] self.held@[j],
            decreases self.held@.len() - i,
        {
            if !self.held[i] {
                return false;
            }
            i = i + 1;
        }
        true
    }

    /// Whether the line `back` lines from the end held, in a case that ran to
    /// its end.
    pub fn line_held(&self, back: usize) -> (held: bool)
        requires
            back > 0,
        ensures
            held == (!self.aborted && self.held@.len() == self.script@.len() && back
                <= self.held@.len() && self.held@[self.held@.len() - back]),
    {
        !self.aborted && self.held.len() == self.script.len() && back <= self.held.len()
            && self.held[self.held.len() - back]
    }
}

/// What a wait or a watch does after a look.
#[derive(Clone, Copy, Debug, PartialEq, Eq, Structural)]
pub enum WaitStep {
    /// It is over: it held or not.
    Stop(bool),
    /// Look again later.
    Poll,
}

/// What a wait does: a run that is over ends it in vain, what it waits for ends
/// it well, and the deadline ends it in vain.
pub open spec fn waited(reached: bool, past_deadline: bool, cancelled: bool) -> WaitStep {
    if cancelled {
        WaitStep::Stop(false)
    } else if reached {
        WaitStep::Stop(true)
    } else if past_deadline {
        WaitStep::Stop(false)
    } else {
        WaitStep::Poll
    }
}

pub fn wait_step(reached: bool, past_deadline: bool, cancelled: bool) -> (step: WaitStep)
    ensures
        step == waited(reached, past_deadline, cancelled),
{
    if cancelled {
        WaitStep::Stop(false)
    } else if reached {
        WaitStep::Stop(true)
    } else if past_deadline {
        WaitStep::Stop(false)
    } else {
        WaitStep::Poll
    }
}

/// What a watch does: a deviation ends it in vain, and it held where none was
/// seen by its end or the run's.
pub open spec fn watched(deviated: bool, past_end: bool, cancelled: bool) -> WaitStep {
    if deviated {
        WaitStep::Stop(false)
    } else if past_end || cancelled {
        WaitStep::Stop(true)
    } else {
        WaitStep::Poll
    }
}

pub fn hold_step(deviated: bool, past_end: bool, cancelled: bool) -> (step: WaitStep)
    ensures
        step == watched(deviated, past_end, cancelled),
{
    if deviated {
        WaitStep::Stop(false)
    } else if past_end || cancelled {
        WaitStep::Stop(true)
    } else {
        WaitStep::Poll
    }
}

/// No wait and no watch outlasts its deadline or the run. A wait ends well only
/// with what it waited for, a watch only without a deviation.
pub proof fn law_no_wait_outlasts_its_deadline(seen: bool, past_deadline: bool, cancelled: bool)
    ensures
        past_deadline || cancelled ==> waited(seen, past_deadline, cancelled) is Stop && watched(
            seen,
            past_deadline,
            cancelled,
        ) is Stop,
        waited(seen, past_deadline, cancelled) == WaitStep::Stop(true) ==> seen,
        watched(seen, past_deadline, cancelled) == WaitStep::Stop(true) ==> !seen,
{
}

/// No owed line fails in silence: of the lines that a report settles, each one
/// that is owed and did not hold is told, and no other is. Where the case ends
/// with the line reported, nothing after it is owed.
pub proof fn law_no_owed_line_fails_in_silence(script: Seq<Line>, held: Seq<bool>, ok: bool, i: int)
    requires
        held.len() < script.len(),
        held.len() <= i < recorded(script, held, ok).len(),
        i > held.len() ==> script[held.len() as int].owed != Owed::Vital,
    ensures
        (!recorded(script, held, ok)[i] && script[i].owed != Owed::Nothing) <==> if i
            == held.len() {
            !ok && script[i].owed != Owed::Nothing
        } else {
            passed_over(script, held, ok) == Some(script[i].act)
        },
{
}

/// Every report moves the case on, and never past its end.
pub proof fn law_every_report_moves_on(script: Seq<Line>, held: Seq<bool>, ok: bool)
    requires
        held.len() < script.len(),
    ensures
        held.len() < recorded(script, held, ok).len() <= script.len(),
        held.is_prefix_of(recorded(script, held, ok)),
        ok ==> recorded(script, held, ok) == held.push(true),
{
}

/// A wait ends well exactly with what it waited for in a run that is not over, and
/// goes on exactly while nothing ends it; a watch ends well exactly where it saw no
/// deviation to its end, and a deviation is told however late it is seen.
pub proof fn law_waits_end_with_their_reason(seen: bool, past_deadline: bool, cancelled: bool)
    ensures
        waited(seen, past_deadline, cancelled) == WaitStep::Stop(true) <==> seen && !cancelled,
        waited(seen, past_deadline, cancelled) == WaitStep::Poll <==> !seen && !past_deadline
            && !cancelled,
        watched(seen, past_deadline, cancelled) == WaitStep::Stop(false) <==> seen,
        watched(seen, past_deadline, cancelled) == WaitStep::Poll <==> !seen && !past_deadline
            && !cancelled,
{
}

/// A case ends early exactly with a vital line that did not hold; a line that
/// owes nothing breaks nothing; and a gated line is passed over, as not held,
/// exactly where the line before it did not hold.
pub proof fn law_lines_break_what_they_owe(script: Seq<Line>, held: Seq<bool>, ok: bool)
    requires
        held.len() < script.len(),
    ensures
        ({
            let at = held.len() as int;
            let report = told(script, held, ok);
            let after = recorded(script, held, ok);
            let gated_next = at + 1 < script.len() && script[at + 1].gated;
            &&& report.aborted <==> !ok && script[at].owed == Owed::Vital
            &&& report.violated <==> !ok && (script[at].owed == Owed::Vital || script[at].owed
                == Owed::Judged)
            &&& after[at] == ok
            &&& after.len() == at + 2 <==> !ok && gated_next
            &&& after.len() == at + 1 <==> ok || !gated_next
            &&& after.len() == at + 2 ==> !after[at + 1]
            &&& report.passed_over is Some ==> !ok && gated_next && !report.aborted
                && report.passed_over == Some(script[at + 1].act)
        }),
{
}

} // verus!
