//! What a matchmaker's registry keeps: what each change does to it and leaves
//! alone, which batches land, and how many matchmakers may fail or be lost.
use crate::matchmaker::MatchmakerStorageView;
use crate::ordered::MapKey;
use crate::records::{Ballot, StorageError, StorageRecord, WriteOutcome};
use crate::registry::{RegistryView, ScalarsView, StagedView};
use crate::shape::MATCHMAKER_LOSS_FLOOR;
use crate::world::WorldView;
use vstd::prelude::*;

verus! {

/// A registration is held with its bytes, and touches no other and no scalar.
pub proof fn law_registration_is_held(
    d: RegistryView,
    ballot: Ballot,
    bytes: Seq<u8>,
    other: Ballot,
)
    requires
        other != ballot,
    ensures
        ({
            let after = d.apply(StagedView::Register(ballot, bytes));
            &&& after.registry.contains_key(ballot) && after.registry[ballot] == bytes
            &&& after.registry.contains_key(other) == d.registry.contains_key(other)
            &&& d.registry.contains_key(other) ==> after.registry[other] == d.registry[other]
            &&& after.hard_state == d.hard_state
        }),
{
}

/// A watermark that rises drops the registrations below it and no others; one
/// that does not rise changes nothing.
pub proof fn law_watermark_drops_what_is_below(d: RegistryView, watermark: Ballot, b: Ballot)
    ensures
        ({
            let was = d.hard_state.gc_watermark;
            let after = d.apply(StagedView::Watermark(watermark));
            &&& watermark.rank() > was.rank() ==> {
                &&& after.hard_state.gc_watermark == watermark
                &&& after.hard_state.body == d.hard_state.body
                &&& after.registry.contains_key(b) <==> d.registry.contains_key(b) && b.rank()
                    >= watermark.rank()
                &&& after.registry.contains_key(b) ==> after.registry[b] == d.registry[b]
            }
            &&& watermark.rank() <= was.rank() ==> after == d
        }),
{
}

/// New scalars replace the old ones, but the watermark never goes down: it is the
/// greater of the two, and the registry is pruned to it.
pub proof fn law_scalars_keep_the_greater_watermark(d: RegistryView, scalars: ScalarsView, b: Ballot)
    ensures
        ({
            let after = d.apply(StagedView::Scalars(scalars));
            let floor = after.hard_state.gc_watermark;
            &&& after.hard_state.body == scalars.body
            &&& floor.rank() >= scalars.gc_watermark.rank()
            &&& floor.rank() >= d.hard_state.gc_watermark.rank()
            &&& floor == scalars.gc_watermark || floor == d.hard_state.gc_watermark
            &&& after.registry.contains_key(b) <==> d.registry.contains_key(b) && b.rank()
                >= floor.rank()
            &&& after.registry.contains_key(b) ==> after.registry[b] == d.registry[b]
        }),
{
}

/// An installed registry replaces the old one whole, less what lies below its own
/// watermark; nothing of the old one is left.
pub proof fn law_install_replaces_the_registry(
    d: RegistryView,
    other: RegistryView,
    scalars: ScalarsView,
    registrations: Map<Ballot, Seq<u8>>,
    b: Ballot,
)
    ensures
        ({
            let after = d.apply(StagedView::Install(scalars, registrations));
            &&& after == other.apply(StagedView::Install(scalars, registrations))
            &&& after.hard_state == scalars
            &&& after.registry.contains_key(b) <==> registrations.contains_key(b) && b.rank()
                >= scalars.gc_watermark.rank()
            &&& after.registry.contains_key(b) ==> after.registry[b] == registrations[b]
        }),
{
}

/// Changes land in the order they were staged: a batch leaves what its parts,
/// one after the other, would.
pub proof fn law_batch_lands_in_order(
    d: RegistryView,
    first: Seq<StagedView>,
    second: Seq<StagedView>,
)
    ensures
        d.apply_all(first + second) == d.apply_all(first).apply_all(second),
        d.all_write_once(first + second) <==> d.all_write_once(first) && d.apply_all(
            first,
        ).all_write_once(second),
        d.apply_all(seq![]) == d,
    decreases second.len(),
{
    if second.len() == 0 {
        assert(first + second =~= first);
    } else {
        let front = second.drop_last();
        law_batch_lands_in_order(d, first, front);
        assert((first + second).drop_last() =~= first + front);
        assert((first + second).last() == second.last());
    }
}

/// A batch breaks write-once exactly if some registration in it meets, where it
/// lands, another one for the same ballot.
pub proof fn law_write_once_is_per_ballot(d: RegistryView, ops: Seq<StagedView>)
    ensures
        d.all_write_once(ops) <==> forall|i: int|
            #![trigger ops[i]]
            0 <= i < ops.len() ==> match ops[i] {
                StagedView::Register(ballot, bytes) => {
                    let at = d.apply_all(ops.take(i));
                    at.registry.contains_key(ballot) ==> at.registry[ballot] == bytes
                },
                _ => true,
            },
    decreases ops.len(),
{
    if ops.len() > 0 {
        let front = ops.drop_last();
        law_write_once_is_per_ballot(d, front);
        assert(ops.take(ops.len() - 1) =~= front);
        assert forall|i: int| 0 <= i < front.len() implies #[trigger] front.take(i) == ops.take(
            i,
        ) by {
            assert(front.take(i) =~= ops.take(i));
        }
        if d.all_write_once(front) && d.apply_all(front).keeps_write_once(ops.last()) {
            assert forall|i: int|
                #![trigger ops[i]]
                0 <= i < ops.len() implies match ops[i] {
                StagedView::Register(ballot, bytes) => {
                    let at = d.apply_all(ops.take(i));
                    at.registry.contains_key(ballot) ==> at.registry[ballot] == bytes
                },
                _ => true,
            } by {
                if i < front.len() {
                    assert(front[i] == ops[i]);
                    assert(front.take(i) == ops.take(i));
                }
            }
        }
        if forall|i: int|
            #![trigger ops[i]]
            0 <= i < ops.len() ==> match ops[i] {
                StagedView::Register(ballot, bytes) => {
                    let at = d.apply_all(ops.take(i));
                    at.registry.contains_key(ballot) ==> at.registry[ballot] == bytes
                },
                _ => true,
            } {
            assert forall|i: int|
                #![trigger front[i]]
                0 <= i < front.len() implies match front[i] {
                StagedView::Register(ballot, bytes) => {
                    let at = d.apply_all(front.take(i));
                    at.registry.contains_key(ballot) ==> at.registry[ballot] == bytes
                },
                _ => true,
            } by {
                assert(front[i] == ops[i]);
                assert(front.take(i) == ops.take(i));
            }
            assert(ops[ops.len() - 1] == ops.last());
        }
    }
}

/// A batch lands whole or not at all, and is not tried again: it is lost exactly
/// where there is one, the window is open, the coin falls, and the matchmaker may
/// fail; the error then says that it is lost. Other matchmakers keep theirs.
pub proof fn law_registry_batch_is_whole(
    s: MatchmakerStorageView,
    w: WorldView,
    now_ns: u64,
    fails: bool,
    other: u64,
)
    requires
        other != s.key,
    ensures
        ({
            let (after, world, synced) = s.sync_step(w, now_ns, fails);
            let lost = s.staged.len() > 0 && s.faults.enabled && now_ns < s.faults.cutoff_ns && fails
                && w.may_fail_sync(s.key, s.bootstrap);
            &&& after.staged.len() == 0
            &&& after.key == s.key && after.boot == s.boot && after.bootstrap == s.bootstrap
            &&& lost ==> {
                &&& synced.result == Err::<(), StorageError>(
                    StorageError::FsyncFailed {
                        record: StorageRecord::Batch,
                        outcome: WriteOutcome::Lost,
                    },
                )
                &&& world.matchmakers == w.matchmakers
                &&& world.sick_matchmakers == w.sick_matchmakers.insert(s.key)
            }
            &&& !lost ==> {
                &&& synced.result is Ok
                &&& world.registry_of(s.key) == w.registry_of(s.key).apply_all(s.staged)
                &&& synced.write_once == w.registry_of(s.key).all_write_once(s.staged)
                &&& world.sick_matchmakers == w.sick_matchmakers
            }
            &&& world.registry_of(other) == w.registry_of(other)
            &&& world.disks == w.disks && world.lost_matchmakers == w.lost_matchmakers
        }),
{
}

/// At most one matchmaker is ever lost, and none where too few would be left: once
/// one is lost, another cannot be, and losing it again changes nothing.
pub proof fn law_one_registry_is_lost_at_most(w: WorldView, key: u64, other: u64, bootstrap: nat)
    requires
        w.lost_matchmakers == Set::<u64>::empty(),
        other != key,
    ensures
        ({
            let once = w.lose_registry(key, bootstrap);
            &&& bootstrap >= MATCHMAKER_LOSS_FLOOR ==> once.lost_matchmakers == set![key]
            &&& bootstrap < MATCHMAKER_LOSS_FLOOR ==> once == w
            &&& bootstrap >= MATCHMAKER_LOSS_FLOOR ==> !once.may_lose_registry(other, bootstrap)
            &&& bootstrap >= MATCHMAKER_LOSS_FLOOR ==> once.may_lose_registry(key, bootstrap)
            &&& bootstrap >= MATCHMAKER_LOSS_FLOOR ==> once.lose_registry(
                other,
                bootstrap,
            ).lost_matchmakers == set![key]
            &&& once.matchmakers == w.matchmakers && once.sick_matchmakers == w.sick_matchmakers
        }),
{
    let once = w.lose_registry(key, bootstrap);
    assert(w.lost_matchmakers.subset_of(set![key]));
    if bootstrap >= MATCHMAKER_LOSS_FLOOR {
        assert(once.lost_matchmakers =~= set![key]);
        assert(once.lost_matchmakers.contains(key));
        assert(!set![other].contains(key));
    }
}

/// A matchmaker that failed once may fail again; a further one may only while
/// fewer than a quorum, itself counted, have failed.
pub proof fn law_failing_matchmakers_stay_few(w: WorldView, key: u64, bootstrap: nat)
    ensures
        w.sick_matchmakers.contains(key) ==> w.may_fail_sync(key, bootstrap),
        !w.sick_matchmakers.contains(key) ==> (w.may_fail_sync(key, bootstrap) <==> 2 * (
        w.sick_matchmakers.len() + 1) <= bootstrap || w.sick_matchmakers.len() + 1 <= bootstrap / 2),
        w.may_fail_sync(key, bootstrap) ==> w.fail_sync(key, bootstrap).sick_matchmakers
            == w.sick_matchmakers.insert(key),
        !w.may_fail_sync(key, bootstrap) ==> w.fail_sync(key, bootstrap) == w,
{
}

} // verus!
