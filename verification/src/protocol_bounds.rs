//! The bounded-work choreography: how a long suffix is walked page by page, and
//! what each page owes. The caller drives the protocol core and hands each
//! page's measurements in.
use crate::records::Ballot;
use vstd::bytes::{spec_u64_to_le_bytes, u64_to_le_bytes};
use vstd::prelude::*;

verus! {

/// The client under which the choreography's commands are written.
pub const BOUNDS_CLIENT: u64 = 7;

/// The candidate that asks for the suffix.
pub const CANDIDATE: u64 = 1;

/// The length of the suffix: two full pages and a short one.
pub open spec fn suffix_length(batch: int) -> int {
    2 * batch + 2
}

pub fn suffix_len(batch: u64) -> (length: u64)
    requires
        batch <= (u64::MAX - 2) / 2,
    ensures
        length == suffix_length(batch as int),
{
    2 * batch + 2
}

/// The command that a slot of the suffix holds: its identity and its bytes.
#[derive(Debug, PartialEq, Eq)]
pub struct BoundsCommand {
    pub client: u64,
    pub seq: u64,
    pub value: Vec<u8>,
}

pub fn command(slot: u64) -> (command: BoundsCommand)
    ensures
        command.client == BOUNDS_CLIENT,
        command.seq == slot,
        command.value@ == spec_u64_to_le_bytes(slot),
{
    BoundsCommand { client: BOUNDS_CLIENT, seq: slot, value: u64_to_le_bytes(slot) }
}

/// The walk over an acceptor's promised suffix.
#[derive(Clone, Copy, Debug, PartialEq, Eq, Structural)]
pub struct PromiseWalk {
    /// The most entries one page may carry.
    pub batch: u64,
    pub ballot: Ballot,
    /// Where the next page starts.
    pub cursor: u64,
    pub pages: u64,
    pub entries: u64,
    /// Every page so far kept within the batch.
    pub bounded: bool,
}

/// One page of a promised suffix: how many entries it carried, and where the
/// next one starts, if there is a next one.
#[derive(Clone, Copy, Debug, PartialEq, Eq, Structural)]
pub struct PromisePage {
    pub entries: u64,
    pub next: Option<u64>,
}

/// The candidate's request for the page after a partial one.
#[derive(Clone, Copy, Debug, PartialEq, Eq, Structural)]
pub struct Continuation {
    pub from: u64,
    pub ballot: Ballot,
    pub from_slot: u64,
}

impl PromiseWalk {
    /// As long as every page is bounded, the pages bound the entries.
    pub open spec fn valid(self) -> bool {
        self.bounded ==> self.entries <= self.pages * self.batch
    }

    pub fn start(batch: u64, ballot: Ballot) -> (walk: PromiseWalk)
        ensures
            walk == (PromiseWalk { batch, ballot, cursor: 0, pages: 0, entries: 0, bounded: true }),
            walk.valid(),
    {
        PromiseWalk { batch, ballot, cursor: 0, pages: 0, entries: 0, bounded: true }
    }

    /// Take one page in; whether it kept within the batch.
    pub fn page(&mut self, entries: u64) -> (bounded: bool)
        requires
            old(self).valid(),
            old(self).pages < u64::MAX,
            old(self).entries <= u64::MAX - entries,
        ensures
            final(self).valid(),
            *final(self) == (PromiseWalk {
                pages: (old(self).pages + 1) as u64,
                entries: (old(self).entries + entries) as u64,
                bounded: old(self).bounded && entries <= old(self).batch,
                ..*old(self)
            }),
            bounded == (entries <= old(self).batch),
    {
        let bounded = entries <= self.batch;
        proof {
            let pages = self.pages as int;
            let batch = self.batch as int;
            assert((pages + 1) * batch == pages * batch + batch) by (nonlinear_arith);
        }
        self.pages = self.pages + 1;
        self.entries = self.entries + entries;
        self.bounded = self.bounded && bounded;
        bounded
    }

    /// Go on from a partial page: whether the candidate asked for exactly its
    /// continuation. One that asked for nothing did not.
    pub fn resume(&mut self, next: u64, asked: Option<Continuation>) -> (exact: bool)
        requires
            old(self).valid(),
        ensures
            final(self).valid(),
            exact == (asked == Some(
                Continuation { from: CANDIDATE, ballot: old(self).ballot, from_slot: next },
            )),
            *final(self) == if asked is Some {
                PromiseWalk { cursor: next, ..*old(self) }
            } else {
                *old(self)
            },
    {
        match asked {
            Some(asked) => {
                self.cursor = next;
                asked.from == CANDIDATE && asked.ballot == self.ballot && asked.from_slot == next
            },
            None => false,
        }
    }

    /// The walk carried the whole suffix, over more than one page.
    pub fn covered(&self) -> (covered: bool)
        requires
            self.batch <= (u64::MAX - 2) / 2,
        ensures
            covered == (self.pages > 1 && self.entries == suffix_length(self.batch as int)),
    {
        self.pages > 1 && self.entries == suffix_len(self.batch)
    }
}

/// What a leader's ready batch reports of its recovery.
#[derive(Clone, Copy, Debug, PartialEq, Eq, Structural)]
pub struct RecoveryChunk {
    pub started: u64,
    pub gap_fills: u64,
    pub remaining: u64,
}

/// What follows a recovery chunk.
#[derive(Clone, Copy, Debug, PartialEq, Eq, Structural)]
pub enum RecoveryStep {
    /// No chunk was exposed where one was owed.
    Missing,
    /// More remains: advance the recovery and take the next one.
    Continue { bounded: bool },
    Done { bounded: bool },
}

/// Take in one recovery chunk.
pub fn recovery_step(batch: u64, chunk: Option<RecoveryChunk>) -> (step: RecoveryStep)
    ensures
        step == match chunk {
            None => RecoveryStep::Missing,
            Some(chunk) => if chunk.remaining == 0 {
                RecoveryStep::Done { bounded: chunk.started <= batch }
            } else {
                RecoveryStep::Continue { bounded: chunk.started <= batch }
            },
        },
{
    match chunk {
        None => RecoveryStep::Missing,
        Some(chunk) => {
            let bounded = chunk.started <= batch;
            if chunk.remaining == 0 {
                RecoveryStep::Done { bounded }
            } else {
                RecoveryStep::Continue { bounded }
            }
        },
    }
}

/// What one ready batch of a released chosen prefix showed.
#[derive(Clone, Copy, Debug, PartialEq, Eq, Structural)]
pub struct PrefixVerdict {
    /// It wrote at most one chunk, and the chosen index.
    pub bounded: bool,
    /// The whole suffix is chosen.
    pub done: bool,
}

pub fn prefix_step(batch: u64, suffix: u64, writes: u64, chosen: Option<u64>) -> (verdict:
    PrefixVerdict)
    requires
        suffix > 0,
    ensures
        verdict == (PrefixVerdict {
            bounded: writes <= batch + 1,
            done: chosen == Some((suffix - 1) as u64),
        }),
{
    let done = match chosen {
        Some(slot) => slot == suffix - 1,
        None => false,
    };
    PrefixVerdict { bounded: writes <= batch || writes - batch == 1, done }
}

/// What the choreography waits for.
#[derive(Clone, Copy, Debug, PartialEq, Eq, Structural)]
pub enum BoundsPhase {
    /// The acceptor's answer to a prepare from the walk's cursor.
    Page,
    /// The candidate's answer to a partial page, whose next one starts there.
    Continuation { next: u64 },
    /// The candidate's answer to the terminal page.
    Election,
    /// The leader's next recovery chunk, this many having come.
    Recovery { pages: u64 },
    /// The gapped node's next ready batch, this many having come.
    Release { pages: u64 },
    /// The ballot a refused candidate campaigns under next.
    Nack,
    /// The role of a stale candidate after a continuation under another ballot.
    Stale,
    /// What became of a proposal's acknowledgements.
    Fingerprint,
    Done,
    Failed,
}

/// What the caller does next.
#[derive(Clone, Copy, Debug, PartialEq, Eq, Structural)]
pub enum BoundsAction {
    /// Prepare at the acceptor from that slot.
    Prepare { from_slot: u64 },
    /// Hand the page to the candidate.
    DeliverPage,
    AdvanceRecovery,
    /// Build the gapped node, and close its gap.
    BuildGapped,
    AdvanceGapped,
    /// Refuse a fresh candidate under the highest round there is.
    BuildNacked,
    BuildStale,
    BuildProposer,
    Finish,
    Fail,
}

/// What the core did.
#[derive(Clone, Copy, Debug, PartialEq, Eq, Structural)]
pub enum BoundsEvent {
    /// The acceptor's page, if it sent one.
    Page { page: Option<PromisePage> },
    Asked { continuation: Option<Continuation> },
    Elected { leads: bool, recovery: Option<RecoveryChunk> },
    Recovered { recovery: Option<RecoveryChunk> },
    Released { writes: u64, chosen: Option<u64> },
    Nacked { rejected: Ballot, following: Ballot },
    Staled { follows: bool },
    /// The admitted slot, and the chosen index after the mismatched and after
    /// the matching acknowledgement. None where the leader refused the
    /// proposal.
    Fingerprinted { proposal: Option<Fingerprinted> },
}

#[derive(Clone, Copy, Debug, PartialEq, Eq, Structural)]
pub struct Fingerprinted {
    pub slot: u64,
    /// The fingerprint of another command with the same payload.
    pub other: u64,
    pub admitted: u64,
    pub after_mismatch: Option<u64>,
    pub after_match: Option<u64>,
}

/// The bounds the choreography holds the core to; each field is one that broke.
#[derive(Clone, Copy, Debug, PartialEq, Eq, Structural)]
pub struct BoundsViolations {
    /// A page was owed and none came, or it carried more than a batch.
    pub page: bool,
    /// A partial page was not followed by a request for exactly its
    /// continuation.
    pub continuation: bool,
    /// The terminal page did not complete the election.
    pub election: bool,
    /// A recovery chunk was owed and none came, or it started more than a
    /// batch.
    pub recovery: bool,
    /// A gap fill released more than one bounded chunk of writes.
    pub release: bool,
    /// A refusal's hint chose the next campaign round.
    pub nack: bool,
    /// A continuation under another ballot left a stale campaign open.
    pub stale: bool,
    /// Fingerprints leave out the identity, a mismatched acknowledgement was
    /// credited, or a matching one was not.
    pub fingerprint: bool,
}

impl BoundsViolations {
    pub open spec fn none() -> BoundsViolations {
        BoundsViolations {
            page: false,
            continuation: false,
            election: false,
            recovery: false,
            release: false,
            nack: false,
            stale: false,
            fingerprint: false,
        }
    }
}

/// The choreography under way.
#[derive(Clone, Copy, Debug, PartialEq, Eq, Structural)]
pub struct BoundsRun {
    pub walk: PromiseWalk,
    /// The most slots one recovery chunk may start.
    pub recovery_batch: u64,
    pub phase: BoundsPhase,
    pub violations: BoundsViolations,
    /// The suffix, the recovery and the released prefix each took more than one
    /// page.
    pub suffix_paged: bool,
    pub recovery_paged: bool,
    pub release_paged: bool,
}

/// A refusal's hint does not choose the next campaign round: it is the one
/// after the refused.
pub open spec fn next_round(rejected: Ballot, following: Ballot) -> bool {
    following.round == rejected.round + 1
}

/// Fingerprints tell commands apart, and only a matching acknowledgement
/// counts.
pub open spec fn fingerprints_hold(f: Fingerprinted) -> bool {
    f.other != f.admitted && f.after_mismatch is None && f.after_match == Some(f.slot)
}

impl BoundsRun {
    pub open spec fn valid(self) -> bool {
        &&& self.walk.valid()
        &&& self.walk.batch <= (u64::MAX - 2) / 2
    }

    pub open spec fn suffix(self) -> int {
        suffix_length(self.walk.batch as int)
    }

    /// The event answers what the choreography waits for, and its counters have
    /// room for it.
    pub open spec fn answers(self, event: BoundsEvent) -> bool {
        match (self.phase, event) {
            (BoundsPhase::Page, BoundsEvent::Page { page }) => self.walk.pages < u64::MAX && (
            page matches Some(page) ==> self.walk.entries <= u64::MAX - page.entries),
            (BoundsPhase::Continuation { next }, BoundsEvent::Asked { continuation }) => true,
            (BoundsPhase::Election, BoundsEvent::Elected { leads, recovery }) => true,
            (BoundsPhase::Recovery { pages }, BoundsEvent::Recovered { recovery }) => pages
                < u64::MAX,
            (BoundsPhase::Release { pages }, BoundsEvent::Released { writes, chosen }) => pages
                < u64::MAX,
            (BoundsPhase::Nack, BoundsEvent::Nacked { rejected, following }) => true,
            (BoundsPhase::Stale, BoundsEvent::Staled { follows }) => true,
            (BoundsPhase::Fingerprint, BoundsEvent::Fingerprinted { proposal }) => true,
            _ => false,
        }
    }

    /// The run after recovery chunk number `pages + 1`.
    pub open spec fn after_recovery(self, pages: u64, chunk: Option<RecoveryChunk>) -> BoundsRun {
        match chunk {
            None => BoundsRun {
                phase: BoundsPhase::Failed,
                violations: BoundsViolations { recovery: true, ..self.violations },
                ..self
            },
            Some(chunk) => BoundsRun {
                phase: if chunk.remaining == 0 {
                    BoundsPhase::Release { pages: 0 }
                } else {
                    BoundsPhase::Recovery { pages: (pages + 1) as u64 }
                },
                violations: BoundsViolations {
                    recovery: self.violations.recovery || chunk.started > self.recovery_batch,
                    ..self.violations
                },
                recovery_paged: if chunk.remaining == 0 {
                    pages + 1 > 1
                } else {
                    self.recovery_paged
                },
                ..self
            },
        }
    }

    /// The run after `event`.
    pub open spec fn after(self, event: BoundsEvent) -> BoundsRun {
        match (self.phase, event) {
            (BoundsPhase::Page, BoundsEvent::Page { page }) => match page {
                None => BoundsRun {
                    phase: BoundsPhase::Failed,
                    violations: BoundsViolations { page: true, ..self.violations },
                    ..self
                },
                Some(PromisePage { entries, next }) => BoundsRun {
                    walk: PromiseWalk {
                        pages: (self.walk.pages + 1) as u64,
                        entries: (self.walk.entries + entries) as u64,
                        bounded: self.walk.bounded && entries <= self.walk.batch,
                        ..self.walk
                    },
                    phase: match next {
                        Some(next) => BoundsPhase::Continuation { next },
                        None => BoundsPhase::Election,
                    },
                    violations: BoundsViolations {
                        page: self.violations.page || entries > self.walk.batch,
                        ..self.violations
                    },
                    ..self
                },
            },
            (BoundsPhase::Continuation { next }, BoundsEvent::Asked { continuation }) => BoundsRun {
                walk: if continuation is Some {
                    PromiseWalk { cursor: next, ..self.walk }
                } else {
                    self.walk
                },
                phase: if continuation is Some {
                    BoundsPhase::Page
                } else {
                    BoundsPhase::Failed
                },
                violations: BoundsViolations {
                    continuation: self.violations.continuation || continuation != Some(
                        Continuation { from: CANDIDATE, ballot: self.walk.ballot, from_slot: next },
                    ),
                    ..self.violations
                },
                ..self
            },
            (BoundsPhase::Election, BoundsEvent::Elected { leads, recovery }) => BoundsRun {
                suffix_paged: self.walk.pages > 1 && self.walk.entries == self.suffix(),
                violations: BoundsViolations {
                    election: self.violations.election || !leads,
                    ..self.violations
                },
                ..self
            }.after_recovery(0, recovery),
            (BoundsPhase::Recovery { pages }, BoundsEvent::Recovered { recovery }) =>
                self.after_recovery(pages, recovery),
            (BoundsPhase::Release { pages }, BoundsEvent::Released { writes, chosen }) => {
                let done = chosen == Some((self.suffix() - 1) as u64);
                BoundsRun {
                    phase: if done {
                        BoundsPhase::Nack
                    } else {
                        BoundsPhase::Release { pages: (pages + 1) as u64 }
                    },
                    violations: BoundsViolations {
                        release: self.violations.release || writes > self.recovery_batch + 1,
                        ..self.violations
                    },
                    release_paged: if done {
                        pages + 1 > 1
                    } else {
                        self.release_paged
                    },
                    ..self
                }
            },
            (BoundsPhase::Nack, BoundsEvent::Nacked { rejected, following }) => BoundsRun {
                phase: BoundsPhase::Stale,
                violations: BoundsViolations {
                    nack: self.violations.nack || !next_round(rejected, following),
                    ..self.violations
                },
                ..self
            },
            (BoundsPhase::Stale, BoundsEvent::Staled { follows }) => BoundsRun {
                phase: BoundsPhase::Fingerprint,
                violations: BoundsViolations {
                    stale: self.violations.stale || !follows,
                    ..self.violations
                },
                ..self
            },
            (BoundsPhase::Fingerprint, BoundsEvent::Fingerprinted { proposal }) => match proposal {
                None => BoundsRun { phase: BoundsPhase::Failed, ..self },
                Some(f) => BoundsRun {
                    phase: BoundsPhase::Done,
                    violations: BoundsViolations {
                        fingerprint: self.violations.fingerprint || !fingerprints_hold(f),
                        ..self.violations
                    },
                    ..self
                },
            },
            _ => self,
        }
    }

    /// The action a phase calls for.
    pub open spec fn due(self) -> BoundsAction {
        match self.phase {
            BoundsPhase::Page => BoundsAction::Prepare { from_slot: self.walk.cursor },
            BoundsPhase::Continuation { next } => BoundsAction::DeliverPage,
            BoundsPhase::Election => BoundsAction::DeliverPage,
            BoundsPhase::Recovery { pages } => BoundsAction::AdvanceRecovery,
            BoundsPhase::Release { pages } => if pages == 0 {
                BoundsAction::BuildGapped
            } else {
                BoundsAction::AdvanceGapped
            },
            BoundsPhase::Nack => BoundsAction::BuildNacked,
            BoundsPhase::Stale => BoundsAction::BuildStale,
            BoundsPhase::Fingerprint => BoundsAction::BuildProposer,
            BoundsPhase::Done => BoundsAction::Finish,
            BoundsPhase::Failed => BoundsAction::Fail,
        }
    }

    pub fn start(batch: u64, recovery_batch: u64, ballot: Ballot) -> (run: BoundsRun)
        requires
            batch <= (u64::MAX - 2) / 2,
        ensures
            run.valid(),
            run == (BoundsRun {
                walk: PromiseWalk {
                    batch,
                    ballot,
                    cursor: 0,
                    pages: 0,
                    entries: 0,
                    bounded: true,
                },
                recovery_batch,
                phase: BoundsPhase::Page,
                violations: BoundsViolations::none(),
                suffix_paged: false,
                recovery_paged: false,
                release_paged: false,
            }),
    {
        BoundsRun {
            walk: PromiseWalk::start(batch, ballot),
            recovery_batch,
            phase: BoundsPhase::Page,
            violations: BoundsViolations {
                page: false,
                continuation: false,
                election: false,
                recovery: false,
                release: false,
                nack: false,
                stale: false,
                fingerprint: false,
            },
            suffix_paged: false,
            recovery_paged: false,
            release_paged: false,
        }
    }

    /// What to do next.
    pub fn action(&self) -> (action: BoundsAction)
        ensures
            action == self.due(),
    {
        match self.phase {
            BoundsPhase::Page => BoundsAction::Prepare { from_slot: self.walk.cursor },
            BoundsPhase::Continuation { .. } | BoundsPhase::Election => BoundsAction::DeliverPage,
            BoundsPhase::Recovery { .. } => BoundsAction::AdvanceRecovery,
            BoundsPhase::Release { pages } => if pages == 0 {
                BoundsAction::BuildGapped
            } else {
                BoundsAction::AdvanceGapped
            },
            BoundsPhase::Nack => BoundsAction::BuildNacked,
            BoundsPhase::Stale => BoundsAction::BuildStale,
            BoundsPhase::Fingerprint => BoundsAction::BuildProposer,
            BoundsPhase::Done => BoundsAction::Finish,
            BoundsPhase::Failed => BoundsAction::Fail,
        }
    }

    fn recover(&mut self, pages: u64, chunk: Option<RecoveryChunk>)
        requires
            old(self).valid(),
            pages < u64::MAX,
        ensures
            final(self).valid(),
            *final(self) == old(self).after_recovery(pages, chunk),
    {
        match recovery_step(self.recovery_batch, chunk) {
            RecoveryStep::Missing => {
                self.violations.recovery = true;
                self.phase = BoundsPhase::Failed;
            },
            RecoveryStep::Continue { bounded } => {
                self.violations.recovery = self.violations.recovery || !bounded;
                self.phase = BoundsPhase::Recovery { pages: pages + 1 };
            },
            RecoveryStep::Done { bounded } => {
                self.violations.recovery = self.violations.recovery || !bounded;
                self.recovery_paged = pages > 0;
                self.phase = BoundsPhase::Release { pages: 0 };
            },
        }
    }

    fn take_page(&mut self, page: Option<PromisePage>)
        requires
            old(self).valid(),
            old(self).phase == BoundsPhase::Page,
            old(self).answers(BoundsEvent::Page { page }),
        ensures
            final(self).valid(),
            *final(self) == old(self).after(BoundsEvent::Page { page }),
    {
        match page {
            Some(PromisePage { entries, next }) => {
                let bounded = self.walk.page(entries);
                self.violations.page = self.violations.page || !bounded;
                self.phase = match next {
                    Some(next) => BoundsPhase::Continuation { next },
                    None => BoundsPhase::Election,
                };
            },
            None => {
                self.violations.page = true;
                self.phase = BoundsPhase::Failed;
            },
        }
    }

    fn take_continuation(&mut self, next: u64, continuation: Option<Continuation>)
        requires
            old(self).valid(),
            old(self).phase == (BoundsPhase::Continuation { next }),
        ensures
            final(self).valid(),
            *final(self) == old(self).after(BoundsEvent::Asked { continuation }),
    {
        let exact = self.walk.resume(next, continuation);
        self.violations.continuation = self.violations.continuation || !exact;
        self.phase = if continuation.is_some() {
            BoundsPhase::Page
        } else {
            BoundsPhase::Failed
        };
    }

    fn take_release(&mut self, pages: u64, writes: u64, chosen: Option<u64>)
        requires
            old(self).valid(),
            old(self).phase == (BoundsPhase::Release { pages }),
            pages < u64::MAX,
        ensures
            final(self).valid(),
            *final(self) == old(self).after(BoundsEvent::Released { writes, chosen }),
    {
        let suffix = suffix_len(self.walk.batch);
        let seen = prefix_step(self.recovery_batch, suffix, writes, chosen);
        self.violations.release = self.violations.release || !seen.bounded;
        if seen.done {
            self.release_paged = pages > 0;
            self.phase = BoundsPhase::Nack;
        } else {
            self.phase = BoundsPhase::Release { pages: pages + 1 };
        }
    }

    fn take_fingerprints(&mut self, proposal: Option<Fingerprinted>)
        requires
            old(self).valid(),
            old(self).phase == BoundsPhase::Fingerprint,
        ensures
            final(self).valid(),
            *final(self) == old(self).after(BoundsEvent::Fingerprinted { proposal }),
    {
        match proposal {
            Some(f) => {
                let held = f.other != f.admitted && f.after_mismatch.is_none() && f.after_match
                    == Some(f.slot);
                self.violations.fingerprint = self.violations.fingerprint || !held;
                self.phase = BoundsPhase::Done;
            },
            None => {
                self.phase = BoundsPhase::Failed;
            },
        }
    }

    fn take_election(&mut self, leads: bool, recovery: Option<RecoveryChunk>)
        requires
            old(self).valid(),
            old(self).phase == BoundsPhase::Election,
        ensures
            final(self).valid(),
            *final(self) == old(self).after(BoundsEvent::Elected { leads, recovery }),
    {
        self.suffix_paged = self.walk.covered();
        self.violations.election = self.violations.election || !leads;
        self.recover(0, recovery);
    }

    fn take_nack(&mut self, rejected: Ballot, following: Ballot)
        requires
            old(self).valid(),
            old(self).phase == BoundsPhase::Nack,
        ensures
            final(self).valid(),
            *final(self) == old(self).after(BoundsEvent::Nacked { rejected, following }),
    {
        let held = rejected.round < u64::MAX && following.round == rejected.round + 1;
        self.violations.nack = self.violations.nack || !held;
        self.phase = BoundsPhase::Stale;
    }

    fn take_role(&mut self, follows: bool)
        requires
            old(self).valid(),
            old(self).phase == BoundsPhase::Stale,
        ensures
            final(self).valid(),
            *final(self) == old(self).after(BoundsEvent::Staled { follows }),
    {
        self.violations.stale = self.violations.stale || !follows;
        self.phase = BoundsPhase::Fingerprint;
    }

    /// Take in what the core did.
    pub fn step(&mut self, event: BoundsEvent)
        requires
            old(self).valid(),
            old(self).answers(event),
        ensures
            final(self).valid(),
            *final(self) == old(self).after(event),
    {
        match event {
            BoundsEvent::Page { page } => {
                self.take_page(page);
            },
            BoundsEvent::Asked { continuation } => {
                if let BoundsPhase::Continuation { next } = self.phase {
                    self.take_continuation(next, continuation);
                }
            },
            BoundsEvent::Elected { leads, recovery } => {
                self.take_election(leads, recovery);
            },
            BoundsEvent::Recovered { recovery } => {
                if let BoundsPhase::Recovery { pages } = self.phase {
                    self.recover(pages, recovery);
                }
            },
            BoundsEvent::Released { writes, chosen } => {
                if let BoundsPhase::Release { pages } = self.phase {
                    self.take_release(pages, writes, chosen);
                }
            },
            BoundsEvent::Nacked { rejected, following } => {
                self.take_nack(rejected, following);
            },
            BoundsEvent::Staled { follows } => {
                self.take_role(follows);
            },
            BoundsEvent::Fingerprinted { proposal } => {
                self.take_fingerprints(proposal);
            },
        }
    }
}

/// A fingerprint that is not the given one.
pub fn wrong_fingerprint(fingerprint: u64) -> (wrong: u64)
    ensures
        wrong == fingerprint ^ 1,
        wrong != fingerprint,
{
    assert(fingerprint ^ 1 != fingerprint) by (bit_vector);
    fingerprint ^ 1
}

/// Bounded pages take at least three to carry the whole suffix.
pub proof fn law_bounded_suffix_takes_three_pages(walk: PromiseWalk)
    requires
        walk.valid(),
        walk.bounded,
        walk.batch > 1,
        walk.entries == suffix_length(walk.batch as int),
    ensures
        walk.pages >= 3,
{
    if walk.pages <= 2 {
        let pages = walk.pages as int;
        let batch = walk.batch as int;
        assert(pages * batch <= 2 * batch) by (nonlinear_arith)
            requires
                pages <= 2,
                batch > 1,
        ;
    }
}

/// What broke stays broken: no later event clears a violation.
pub proof fn law_violations_stand(run: BoundsRun, event: BoundsEvent)
    ensures
        ({
            let (a, b) = (run.violations, run.after(event).violations);
            &&& a.page ==> b.page
            &&& a.continuation ==> b.continuation
            &&& a.election ==> b.election
            &&& a.recovery ==> b.recovery
            &&& a.release ==> b.release
            &&& a.nack ==> b.nack
            &&& a.stale ==> b.stale
            &&& a.fingerprint ==> b.fingerprint
        }),
{
}

/// A walk asks for each page exactly where the one before it ended: the next
/// prepare starts at the slot the last partial page named.
pub proof fn law_walk_asks_where_it_stopped(run: BoundsRun, next: u64, continuation: Continuation)
    requires
        run.phase == (BoundsPhase::Continuation { next }),
    ensures
        run.after(BoundsEvent::Asked { continuation: Some(continuation) }).due()
            == (BoundsAction::Prepare { from_slot: next }),
{
}

} // verus!
