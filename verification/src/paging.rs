//! What the bounded-work choreography holds the core to: which answers break a
//! bound and which do not, when a phase counts as paged, and what is asked for
//! next.
use crate::protocol_bounds::{
    BoundsAction, BoundsEvent, BoundsPhase, BoundsRun, CANDIDATE, Continuation, Fingerprinted,
    PromisePage, RecoveryChunk,
};
use crate::records::Ballot;
use vstd::prelude::*;

verus! {

/// Two runs break the same bounds, but for those that a page, a continuation, an
/// election or a recovery may break.
pub open spec fn same_late_bounds(a: BoundsRun, b: BoundsRun) -> bool {
    &&& a.violations.release == b.violations.release
    &&& a.violations.nack == b.violations.nack
    &&& a.violations.stale == b.violations.stale
    &&& a.violations.fingerprint == b.violations.fingerprint
}

/// A page breaks its bound exactly if it is owed and missing or carries more than
/// a batch; it is counted with its entries, and leads to the candidate.
pub proof fn law_page_is_held_to_its_batch(run: BoundsRun, page: Option<PromisePage>)
    requires
        run.valid(),
        run.phase == BoundsPhase::Page,
        run.answers(BoundsEvent::Page { page }),
    ensures
        ({
            let after = run.after(BoundsEvent::Page { page });
            let broken = page is None || page->0.entries > run.walk.batch;
            &&& after.violations.page <==> run.violations.page || broken
            &&& after.violations.continuation == run.violations.continuation
            &&& after.violations.election == run.violations.election
            &&& after.violations.recovery == run.violations.recovery
            &&& same_late_bounds(run, after)
            &&& page is None ==> after.due() == BoundsAction::Fail
            &&& page is Some ==> {
                &&& after.walk.pages == run.walk.pages + 1
                &&& after.walk.entries == run.walk.entries + page->0.entries
                &&& after.walk.cursor == run.walk.cursor
                &&& after.walk.batch == run.walk.batch && after.walk.ballot == run.walk.ballot
                &&& after.due() == BoundsAction::DeliverPage
                &&& page->0.next is None ==> after.phase == BoundsPhase::Election
                &&& page->0.next is Some ==> after.phase == (BoundsPhase::Continuation {
                    next: page->0.next->0,
                })
            }
        }),
{
}

/// After a partial page the candidate must ask for exactly the page that follows
/// it: as itself, under the walk's ballot, from the slot the page named. Anything
/// else breaks the bound, and asking for nothing ends the walk.
pub proof fn law_continuation_is_exact(
    run: BoundsRun,
    next: u64,
    continuation: Option<Continuation>,
)
    requires
        run.phase == (BoundsPhase::Continuation { next }),
    ensures
        ({
            let after = run.after(BoundsEvent::Asked { continuation });
            let exact = continuation is Some && continuation->0.from == CANDIDATE
                && continuation->0.ballot == run.walk.ballot && continuation->0.from_slot == next;
            &&& after.violations.continuation <==> run.violations.continuation || !exact
            &&& after.violations.page == run.violations.page
            &&& after.violations.election == run.violations.election
            &&& after.violations.recovery == run.violations.recovery
            &&& same_late_bounds(run, after)
            &&& continuation is None ==> after.due() == BoundsAction::Fail
            &&& continuation is Some ==> after.due() == (BoundsAction::Prepare { from_slot: next })
            &&& after.walk.pages == run.walk.pages && after.walk.entries == run.walk.entries
        }),
{
}

/// The terminal page must elect the candidate. The suffix counts as paged exactly
/// if all of it came, over at least two pages.
pub proof fn law_election_closes_the_suffix(
    run: BoundsRun,
    leads: bool,
    recovery: Option<RecoveryChunk>,
)
    requires
        run.valid(),
        run.phase == BoundsPhase::Election,
    ensures
        ({
            let after = run.after(BoundsEvent::Elected { leads, recovery });
            &&& after.violations.election <==> run.violations.election || !leads
            &&& after.violations.page == run.violations.page
            &&& after.violations.continuation == run.violations.continuation
            &&& after.violations.recovery <==> run.violations.recovery || recovery is None
                || recovery->0.started > run.recovery_batch
            &&& same_late_bounds(run, after)
            &&& after.suffix_paged <==> run.walk.pages >= 2 && run.walk.entries == 2 * run.walk.batch
                + 2
            &&& recovery is None ==> after.due() == BoundsAction::Fail
            &&& recovery is Some && recovery->0.remaining > 0 ==> after.due()
                == BoundsAction::AdvanceRecovery && after.recovery_paged == run.recovery_paged
            &&& recovery is Some && recovery->0.remaining == 0 ==> after.due()
                == BoundsAction::BuildGapped && !after.recovery_paged
            &&& after.walk == run.walk
        }),
{
}

/// Every further recovery chunk is held to the same batch; the recovery counts as
/// paged exactly if its last chunk was not its first.
pub proof fn law_recovery_is_held_to_its_batch(
    run: BoundsRun,
    leads: bool,
    first: RecoveryChunk,
    second: RecoveryChunk,
)
    requires
        run.valid(),
        run.phase == BoundsPhase::Election,
        first.remaining > 0,
    ensures
        ({
            let mid = run.after(BoundsEvent::Elected { leads, recovery: Some(first) });
            let after = mid.after(BoundsEvent::Recovered { recovery: Some(second) });
            let missing = mid.after(BoundsEvent::Recovered { recovery: None });
            &&& after.violations.recovery <==> run.violations.recovery || first.started
                > run.recovery_batch || second.started > run.recovery_batch
            &&& second.remaining == 0 ==> after.recovery_paged && after.due()
                == BoundsAction::BuildGapped
            &&& second.remaining > 0 ==> after.due() == BoundsAction::AdvanceRecovery
            &&& missing.violations.recovery && missing.due() == BoundsAction::Fail
            &&& after.violations.page == run.violations.page
            &&& same_late_bounds(run, after)
        }),
{
}

/// A gap fill releases at most one chunk of writes and the chosen index at a
/// time, until the last slot of the suffix is chosen; the release counts as paged
/// exactly if it took more than one batch.
pub proof fn law_release_is_held_to_its_batch(
    run: BoundsRun,
    pages: u64,
    writes: u64,
    chosen: Option<u64>,
)
    requires
        run.valid(),
        run.phase == (BoundsPhase::Release { pages }),
        run.answers(BoundsEvent::Released { writes, chosen }),
    ensures
        ({
            let after = run.after(BoundsEvent::Released { writes, chosen });
            let done = chosen is Some && chosen->0 == 2 * run.walk.batch + 1;
            &&& after.violations.release <==> run.violations.release || writes > run.recovery_batch
                + 1
            &&& after.violations.recovery == run.violations.recovery
            &&& after.violations.nack == run.violations.nack
            &&& done ==> after.due() == BoundsAction::BuildNacked && (after.release_paged <==> pages
                > 0)
            &&& !done ==> after.due() == BoundsAction::AdvanceGapped && after.phase == (
            BoundsPhase::Release { pages: (pages + 1) as u64 }) && after.release_paged
                == run.release_paged
        }),
{
}

/// A refused candidate campaigns next in the round after its own, whatever round
/// the refusal hinted at; a stale one follows; and only the acknowledgement of
/// the very command admitted is credited. Each is asked for in turn, and then the
/// run is over.
pub proof fn law_last_checks_come_in_turn(
    run: BoundsRun,
    rejected: Ballot,
    following: Ballot,
    follows: bool,
    proposal: Option<Fingerprinted>,
)
    ensures
        run.phase == BoundsPhase::Nack ==> {
            let after = run.after(BoundsEvent::Nacked { rejected, following });
            &&& after.violations.nack <==> run.violations.nack || following.round != rejected.round
                + 1
            &&& after.violations.stale == run.violations.stale
            &&& after.violations.fingerprint == run.violations.fingerprint
            &&& after.due() == BoundsAction::BuildStale
        },
        run.phase == BoundsPhase::Stale ==> {
            let after = run.after(BoundsEvent::Staled { follows });
            &&& after.violations.stale <==> run.violations.stale || !follows
            &&& after.violations.nack == run.violations.nack
            &&& after.violations.fingerprint == run.violations.fingerprint
            &&& after.due() == BoundsAction::BuildProposer
        },
        run.phase == BoundsPhase::Fingerprint ==> {
            let after = run.after(BoundsEvent::Fingerprinted { proposal });
            &&& proposal is None ==> after.due() == BoundsAction::Fail && after.violations
                == run.violations
            &&& proposal is Some ==> {
                &&& after.due() == BoundsAction::Finish
                &&& after.violations.fingerprint <==> run.violations.fingerprint
                    || proposal->0.other == proposal->0.admitted || proposal->0.after_mismatch
                    is Some || proposal->0.after_match is None || proposal->0.after_match->0
                    != proposal->0.slot
                &&& after.violations.nack == run.violations.nack
                &&& after.violations.stale == run.violations.stale
            }
        },
{
}

} // verus!
