//! What becomes of a write: which sync makes it durable and what the disk then
//! holds, what a failed write or sync leaves behind, and what a flush tells and
//! repairs.
use crate::disk::{DiskView, RecordHealth, SnapPointView};
use crate::flush::{chunk_name, flush_disk, flush_world, seal};
use crate::ordered::{MapKey, ascending, lemma_ascending_lists};
use crate::records::{
    AppView, Ballot, EntryView, MustSync, SealedSession, Session, StorageError, StorageRecord,
    WitnessStatus, WriteOutcome,
};
use crate::stage::{AppliedFact, CommandKind, StageView, one_if};
use crate::storage::StorageView;
use crate::sync::{chunk_bytes_of, chunk_matches, chunk_read, chunk_written, retains_chunk};
use crate::world::{
    CorruptionInjection, CorruptionKind, CorruptionOutcome, InjectedFault, InjectedFaultKind,
    WorldView,
};
use crate::writes::{SyncCoins, WriteCoins, WriteView, permitted_prefix};
use vstd::prelude::*;

verus! {

/// The disk of `s` once everything it has staged is flushed.
pub open spec fn durable(s: StorageView, w: WorldView) -> DiskView {
    flush_world(w, s.key, s.node_id, s.stage).disks[s.key]
}

/// A write that is answered well is staged and not durable; one that is answered
/// with an error names its record and leaves open whether it landed, and one
/// fault of that record is on the books. An error comes exactly where the window
/// is open, the coin falls, and the budget permits the fault.
pub proof fn law_write_is_staged_or_ambiguous(
    s: StorageView,
    w: WorldView,
    now_ns: u64,
    write: WriteView,
    coins: WriteCoins,
)
    ensures
        ({
            let step = s.write_step(w, now_ns, write, coins);
            let slots = match write {
                WriteView::Accepted(slot, _) => seq![slot],
                _ => Seq::<u64>::empty(),
            };
            &&& step.written.result is Err <==> s.faults.enabled && now_ns < s.faults.cutoff_ns
                && coins.fires && w.permits(s.key, slots)
            &&& step.written.result is Ok ==> {
                &&& step.world == w
                &&& step.storage.key == s.key
                &&& step.storage.node_id == s.node_id
                &&& step.written.report is None
            }
            &&& step.written.result is Err ==> {
                &&& step.written.result == Err::<(), StorageError>(
                    StorageError::Io { record: write.record(), outcome: WriteOutcome::Unknown },
                )
                &&& step.world.injected == w.injected.push(
                    InjectedFault {
                        node: s.node_id,
                        record: write.record(),
                        kind: InjectedFaultKind::WriteEio,
                        persisted: coins.persisted,
                    },
                )
                &&& !coins.persisted ==> {
                    &&& step.storage == s
                    &&& step.world.disks == w.disks
                    &&& step.written.report is None
                    &&& forall|slot: u64| #[trigger]
                        step.world.marked(s.key, slot) <==> w.marked(s.key, slot)
                            || slots.contains(slot)
                }
                &&& coins.persisted ==> {
                    &&& step.written.report is Some
                    &&& step.storage.stage == StageView::empty()
                    &&& step.world.disks[s.key] == durable(s.staged(write), w)
                }
            }
        }),
{
    let step = s.write_step(w, now_ns, write, coins);
    if let WriteView::Accepted(slot, entry) = write {
        assert(seq![slot][0] == slot);
    }
    if step.written.result is Err && !coins.persisted {
        let slots = match write {
            WriteView::Accepted(slot, _) => seq![slot],
            _ => Seq::<u64>::empty(),
        };
        assert forall|slot: u64| #[trigger]
            step.world.marked(s.key, slot) <==> w.marked(s.key, slot) || slots.contains(slot) by {
            assert(slots.to_set().contains(slot) <==> slots.contains(slot));
        }
    }
}

/// The record each write is of.
pub proof fn law_write_names_its_record(
    slot: u64,
    ballot: Ballot,
    entry: EntryView,
    sealed: Seq<SealedSession>,
    state: AppView,
    fact: AppliedFact,
)
    ensures
        WriteView::ConfigId(slot).record() == StorageRecord::ConfigId,
        WriteView::Promise(ballot).record() == StorageRecord::Promise,
        WriteView::Accepted(slot, entry).record() == StorageRecord::Accepted(slot),
        WriteView::ChosenIndex(slot).record() == StorageRecord::ChosenIndex,
        WriteView::Truncation(slot, sealed).record() == StorageRecord::Truncation,
        WriteView::Install(slot, ballot, state, sealed).record() == StorageRecord::Snapshot,
        WriteView::Apply(fact, state).record() == StorageRecord::Application(fact.slot),
{
}

/// A promise, once flushed, is on disk in both copies: the greater of the one
/// written and the one held before. Nothing else changes by it.
pub proof fn law_promise_becomes_durable(s: StorageView, w: WorldView, ballot: Ballot)
    ensures
        ({
            let was = w.disk_or_fresh(s.key).hard_state.max_promised_ballot;
            let with = durable(s.staged(WriteView::Promise(ballot)), w);
            let without = durable(s, w);
            let now = with.hard_state.max_promised_ballot;
            &&& now.rank() >= ballot.rank() && now.rank() >= was.rank()
            &&& now == ballot || now == was
            &&& with.promise_health == (RecordHealth::Clean, RecordHealth::Clean)
            &&& with == DiskView {
                hard_state: with.hard_state,
                promise_health: with.promise_health,
                ..without
            }
            &&& with.hard_state.config_id == without.hard_state.config_id
            &&& with.hard_state.chosen_index == without.hard_state.chosen_index
            &&& s.staged(WriteView::Promise(ballot)).application == s.application
        }),
{
}

/// The configuration and the chosen index that a flush leaves are the last ones
/// written; nothing else changes by writing them.
pub proof fn law_scalars_become_durable(s: StorageView, w: WorldView, value: u64)
    ensures
        ({
            let config = durable(s.staged(WriteView::ConfigId(value)), w);
            let chosen = durable(s.staged(WriteView::ChosenIndex(value)), w);
            let without = durable(s, w);
            &&& config.hard_state.config_id == value
            &&& config.hard_state.max_promised_ballot == without.hard_state.max_promised_ballot
            &&& config.hard_state.chosen_index == without.hard_state.chosen_index
            &&& config == DiskView { hard_state: config.hard_state, ..without }
            &&& chosen.hard_state.chosen_index == Some(value)
            &&& chosen.hard_state.max_promised_ballot == without.hard_state.max_promised_ballot
            &&& chosen.hard_state.config_id == without.hard_state.config_id
            &&& chosen.chosen_health == RecordHealth::Clean
            &&& chosen == DiskView {
                hard_state: chosen.hard_state,
                chosen_health: chosen.chosen_health,
                ..without
            }
            &&& s.staged(WriteView::ConfigId(value)).application == s.application
            &&& s.staged(WriteView::ChosenIndex(value)).application == s.application
        }),
{
}

/// An accepted entry at or above the floor reads back clean with its bytes once
/// flushed, and every other slot reads as if it had not been written.
pub proof fn law_accepted_entry_becomes_durable(
    s: StorageView,
    w: WorldView,
    slot: u64,
    entry: EntryView,
    other: u64,
)
    requires
        other != slot,
    ensures
        ({
            let with = durable(s.staged(WriteView::Accepted(slot, entry)), w);
            let without = durable(s, w);
            &&& s.stage.floor is None || slot >= with.first_slot ==> with.holds_clean(slot)
                && with.accepted[slot] == entry
            &&& s.stage.floor is Some && slot < with.first_slot ==> !with.accepted.contains_key(
                slot,
            )
            &&& with.accepted.contains_key(other) == without.accepted.contains_key(other)
            &&& with.accepted.contains_key(other) ==> with.accepted[other]
                == without.accepted[other]
            &&& with.entry_health.contains_key(other) == without.entry_health.contains_key(other)
            &&& with.entry_health.contains_key(other) ==> with.entry_health[other]
                == without.entry_health[other]
            &&& with == DiskView {
                accepted: with.accepted,
                entry_health: with.entry_health,
                ..without
            }
            &&& s.staged(WriteView::Accepted(slot, entry)).application == s.application
        }),
{
}

/// A floor, once flushed, stands at the highest of what was written and what was
/// held: nothing below it is left of the log, and everything above it is as it
/// was.
pub proof fn law_truncation_becomes_durable(
    s: StorageView,
    w: WorldView,
    first: u64,
    sealed: Seq<SealedSession>,
    slot: u64,
)
    requires
        s.stage.floor is None,
    ensures
        ({
            let was = w.disk_or_fresh(s.key);
            let with = durable(s.staged(WriteView::Truncation(first, sealed)), w);
            let without = durable(s, w);
            &&& with.first_slot >= first && with.first_slot >= was.first_slot
            &&& with.first_slot == first || with.first_slot == was.first_slot
            &&& with.truncation_health == RecordHealth::Clean
            &&& slot < with.first_slot ==> !with.accepted.contains_key(slot)
                && !with.entry_health.contains_key(slot)
            &&& slot >= with.first_slot ==> {
                &&& with.accepted.contains_key(slot) == without.accepted.contains_key(slot)
                &&& with.accepted.contains_key(slot) ==> with.accepted[slot]
                    == without.accepted[slot]
                &&& with.slot_health(slot) == without.slot_health(slot)
            }
            &&& with.hard_state == without.hard_state
            &&& with.chain == without.chain
            &&& with.snap_point == without.snap_point
            &&& with.snap_chunk_health == without.snap_chunk_health
            &&& s.staged(WriteView::Truncation(first, sealed)).application == s.application
        }),
{
}

/// A floor that is already staged is raised, and never lowered.
pub proof fn law_staged_floor_only_rises(
    s: StorageView,
    first: u64,
    sealed: Seq<SealedSession>,
    floor: u64,
)
    requires
        s.stage.floor == Some(floor),
    ensures
        s.staged(WriteView::Truncation(first, sealed)).stage.floor matches Some(raised) && raised
            >= floor && raised >= first && (raised == floor || raised == first),
        s.staged(WriteView::Truncation(first, sealed)).stage.sealed == s.stage.sealed + sealed,
{
}

/// A sealed session is on the ledger, at the slot it was first sealed at: a
/// later seal of the same session changes nothing, and no other session appears.
pub proof fn law_first_seal_stands(
    ledger: Map<Session, u64>,
    list: Seq<SealedSession>,
    session: Session,
)
    ensures
        ({
            let after = seal(ledger, list);
            &&& after.contains_key(session) <==> ledger.contains_key(session) || exists|i: int|
                0 <= i < list.len() && (#[trigger] list[i]).session == session
            &&& ledger.contains_key(session) ==> after[session] == ledger[session]
            &&& !ledger.contains_key(session) && after.contains_key(session) ==> exists|i: int|
                {
                    &&& 0 <= i < list.len()
                    &&& (#[trigger] list[i]).session == session
                    &&& after[session] == list[i].slot
                    &&& forall|j: int| 0 <= j < i ==> (#[trigger] list[j]).session != session
                }
        }),
    decreases list.len(),
{
    if list.len() > 0 {
        let front = list.drop_last();
        let last = list.last();
        law_first_seal_stands(ledger, front, session);
        let before = seal(ledger, front);
        let after = seal(ledger, list);
        if before.contains_key(session) && !ledger.contains_key(session) {
            let i = choose|i: int|
                {
                    &&& 0 <= i < front.len()
                    &&& (#[trigger] front[i]).session == session
                    &&& before[session] == front[i].slot
                    &&& forall|j: int| 0 <= j < i ==> (#[trigger] front[j]).session != session
                };
            assert(list[i] == front[i]);
            assert forall|j: int| 0 <= j < i implies (#[trigger] list[j]).session != session by {
                assert(list[j] == front[j]);
            }
        }
        if !before.contains_key(session) && last.session == session {
            let i = list.len() - 1;
            assert(list[i].session == session);
            assert forall|j: int| 0 <= j < i implies (#[trigger] list[j]).session != session by {
                assert(front[j] == list[j]);
            }
        }
        if exists|i: int| 0 <= i < list.len() && (#[trigger] list[i]).session == session {
            let i = choose|i: int| 0 <= i < list.len() && (#[trigger] list[i]).session == session;
            if i < front.len() {
                assert(front[i].session == session);
            }
        }
        if exists|i: int| 0 <= i < front.len() && (#[trigger] front[i]).session == session {
            let i = choose|i: int|
                0 <= i < front.len() && (#[trigger] front[i]).session == session;
            assert(list[i].session == session);
        }
    }
}

/// An installed snapshot is served at once, and once flushed it is what the disk
/// holds: its state, its chosen index, a floor just above it, and a promise no
/// lower than the ballot it was served under.
pub proof fn law_installed_snapshot_becomes_durable(
    s: StorageView,
    w: WorldView,
    chosen: u64,
    ballot: Ballot,
    state: AppView,
    sessions: Seq<SealedSession>,
)
    requires
        chosen < u64::MAX,
        s.stage.applied is None,
    ensures
        ({
            let after = s.staged(WriteView::Install(chosen, ballot, state, sessions));
            let with = durable(after, w);
            &&& after.application == state
            &&& with.chain == state
            &&& with.snapshot_health == RecordHealth::Clean
            &&& with.hard_state.chosen_index == Some(chosen)
            &&& with.hard_state.max_promised_ballot.rank() >= ballot.rank()
            &&& with.first_slot > chosen
            &&& s.stage.floor is None && w.disk_or_fresh(s.key).first_slot <= chosen
                ==> with.first_slot == chosen + 1
            &&& forall|slot: u64| slot <= chosen ==> !#[trigger] with.accepted.contains_key(slot)
            &&& after.stage.applies == s.stage.applies
            &&& after.stage.snap_point == s.stage.snap_point
            &&& after.stage.accepted == s.stage.accepted
            &&& after.stage.sealed == s.stage.sealed + sessions
        }),
{
}

/// A command is applied at most once: one that is already folded in changes
/// nothing and is answered well, and any other leads the handle to its next
/// state, which is what the disk holds once flushed. Its fact is told last, after
/// those staged before it.
pub proof fn law_command_is_applied_once(
    s: StorageView,
    w: WorldView,
    now_ns: u64,
    slot: u64,
    command: u64,
    kind: CommandKind,
    next: AppView,
    coins: WriteCoins,
)
    requires
        s.apply_step(w, now_ns, slot, command, kind, next, coins).written.result is Ok,
    ensures
        ({
            let step = s.apply_step(w, now_ns, slot, command, kind, next, coins);
            &&& step.world == w
            &&& slot < s.application.applied_count ==> step.storage == s
            &&& slot >= s.application.applied_count ==> {
                &&& step.storage.application == next
                &&& durable(step.storage, w).chain == next
                &&& durable(step.storage, w).snapshot_health == RecordHealth::Clean
                &&& durable(step.storage, w).accepted == durable(s, w).accepted
                &&& durable(step.storage, w).hard_state == durable(s, w).hard_state
                &&& step.storage.stage.applies.len() == s.stage.applies.len() + 1
                &&& step.storage.stage.applies.drop_last() == s.stage.applies
                &&& step.storage.stage.applies.last() == AppliedFact {
                    slot,
                    index: next.applied_count,
                    command,
                    kind,
                    state: next.chain_hash,
                }
                &&& next.applied_count == slot + 1 ==> step.storage.apply_step(
                    w,
                    now_ns,
                    slot,
                    command,
                    kind,
                    next,
                    coins,
                ).storage == step.storage
            }
        }),
{
    let step = s.apply_step(w, now_ns, slot, command, kind, next, coins);
    if slot >= s.application.applied_count {
        assert(step.storage.stage.applies.drop_last() =~= s.stage.applies);
    }
}

/// Of a command's slot, one of three holds: it is already folded in, it is the
/// one expected next, or it is ahead.
pub proof fn law_expected_slot_parts_the_log(s: StorageView, slot: u64)
    ensures
        s.replays(slot) <==> slot < s.expected_slot(),
        s.expected_slot() == s.application.applied_count,
{
}

/// A synced batch is flushed whole and leaves nothing staged. A sync fails
/// exactly where there is something to lose, the window is open, a coin falls,
/// and the budget permits it; its error never says whether the batch landed, and
/// one fault of the batch is on the books.
pub proof fn law_sync_is_whole_or_ambiguous(
    s: StorageView,
    w: WorldView,
    now_ns: u64,
    coins: SyncCoins,
    draw: u64,
)
    ensures
        ({
            let step = s.sync_step(w, now_ns, MustSync::Sync, coins, draw);
            let torn_on_purpose = coins.force_torn && s.tearable(w);
            &&& step.written.result is Err <==> s.stage.records().len() > 0 && s.faults.enabled
                && now_ns < s.faults.cutoff_ns && (coins.fails || torn_on_purpose) && w.permits(
                s.key,
                ascending(s.stage.accepted.dom()),
            )
            &&& step.written.result is Ok ==> {
                &&& step.world == flush_world(w, s.key, s.node_id, s.stage)
                &&& step.storage == StorageView { stage: StageView::empty(), ..s }
                &&& step.written.report is Some
            }
            &&& step.written.result is Err ==> {
                let landed = coins.persisted && !torn_on_purpose;
                &&& step.written.result == Err::<(), StorageError>(
                    StorageError::FsyncFailed {
                        record: StorageRecord::Batch,
                        outcome: WriteOutcome::Unknown,
                    },
                )
                &&& step.world.injected == w.injected.push(
                    InjectedFault {
                        node: s.node_id,
                        record: StorageRecord::Batch,
                        kind: InjectedFaultKind::FsyncFailed,
                        persisted: landed,
                    },
                )
                &&& landed ==> step.storage.stage == StageView::empty()
                    && step.world.disks[s.key] == durable(s, w)
                &&& !landed ==> step.storage == s && step.written.report is None
                &&& !landed && !coins.torn && !torn_on_purpose ==> step.world.disks == w.disks
            }
        }),
{
}

/// A torn batch leaves a prefix of the appends that are new to the disk, and
/// nothing else of the batch: each of them without an identifier and marked, the
/// last one's bytes possibly damaged, and each on the books as a torn tail that
/// nobody has read yet.
pub proof fn law_torn_batch_leaves_a_prefix(
    s: StorageView,
    w: WorldView,
    draw: u64,
    faulty: bool,
    slot: u64,
)
    requires
        w.disks.contains_key(s.key),
        s.stage.accepted.dom().finite(),
    ensures
        ({
            let torn = s.torn_slots(w, draw);
            let after = s.torn(w, draw, faulty);
            let was = w.disks[s.key];
            let now = after.disks[s.key];
            &&& torn.contains(slot) ==> {
                &&& s.stage.accepted.contains_key(slot)
                &&& forall|held: u64| #[trigger] was.accepted.contains_key(held) ==> held < slot
                &&& now.accepted.contains_key(slot) && now.accepted[slot] == s.stage.accepted[slot]
                &&& now.slot_health(slot).id == WitnessStatus::Absent
                &&& now.slot_health(slot).entry == if slot == torn.last() && faulty {
                    RecordHealth::Faulty
                } else {
                    RecordHealth::Clean
                }
                &&& after.marked(s.key, slot)
            }
            &&& !torn.contains(slot) ==> {
                &&& now.accepted.contains_key(slot) == was.accepted.contains_key(slot)
                &&& was.accepted.contains_key(slot) ==> now.accepted[slot] == was.accepted[slot]
                &&& now.slot_health(slot) == was.slot_health(slot)
                &&& after.marked(s.key, slot) == w.marked(s.key, slot)
            }
            &&& now == DiskView {
                accepted: now.accepted,
                entry_health: now.entry_health,
                ..was
            }
            &&& after.corruptions.len() == w.corruptions.len() + torn.len()
            &&& forall|i: int|
                0 <= i < w.corruptions.len() ==> #[trigger] after.corruptions[i]
                    == w.corruptions[i]
            &&& forall|i: int|
                #![trigger torn[i]]
                0 <= i < torn.len() ==> after.corruptions[w.corruptions.len() + i]
                    == CorruptionInjection {
                    node: s.node_id,
                    record: StorageRecord::Accepted(torn[i]),
                    kind: CorruptionKind::TornTail,
                    block: false,
                    outcome: CorruptionOutcome::Dormant,
                }
            &&& forall|i: int, j: int|
                0 <= i < j < torn.len() ==> #[trigger] torn[i] < #[trigger] torn[j]
        }),
{
    let fresh = s.fresh_slots(w);
    let list = ascending(fresh);
    let torn = s.torn_slots(w, draw);
    let after = s.torn(w, draw, faulty);
    lemma_torn_slots(s, w, draw);
    if torn.contains(slot) {
        assert(fresh.contains(slot));
    }
    assert(torn.to_set().contains(slot) <==> torn.contains(slot));
}

proof fn lemma_torn_slots(s: StorageView, w: WorldView, draw: u64)
    requires
        s.stage.accepted.dom().finite(),
    ensures
        forall|slot: u64| #[trigger]
            s.torn_slots(w, draw).contains(slot) ==> s.fresh_slots(w).contains(slot),
        forall|i: int, j: int|
            0 <= i < j < s.torn_slots(w, draw).len() ==> #[trigger] s.torn_slots(w, draw)[i]
                < #[trigger] s.torn_slots(w, draw)[j],
{
    let fresh = s.fresh_slots(w);
    let list = ascending(fresh);
    let torn = s.torn_slots(w, draw);
    if list.len() > 0 {
        lemma_listing(fresh);
        let cut = list.take(1 + draw as int % list.len() as int);
        lemma_permitted_prefix(w, s.key, cut);
        assert forall|slot: u64| #[trigger] torn.contains(slot) implies fresh.contains(slot) by {
            let i = choose|i: int| 0 <= i < torn.len() && torn[i] == slot;
            assert(list[i] == slot);
            assert(list.contains(slot));
        }
    }
}

proof fn lemma_permitted_prefix(w: WorldView, key: u64, slots: Seq<u64>)
    ensures
        0 <= permitted_prefix(w, key, slots) <= slots.len(),
    decreases slots.len(),
{
    if slots.len() > 0 {
        lemma_permitted_prefix(w, key, slots.drop_last());
    }
}

proof fn lemma_listing(slots: Set<u64>)
    requires
        slots.finite(),
    ensures
        forall|slot: u64| #[trigger] ascending(slots).contains(slot) ==> slots.contains(slot),
        forall|i: int, j: int|
            0 <= i < j < ascending(slots).len() ==> #[trigger] ascending(slots)[i]
                < #[trigger] ascending(slots)[j],
{
    lemma_ascending_lists(slots);
    assert forall|i: int, j: int| 0 <= i < j < ascending(slots).len() implies #[trigger] ascending(
        slots,
    )[i] < #[trigger] ascending(slots)[j] by {
        assert(ascending(slots)[i].rank() < ascending(slots)[j].rank());
    }
}

/// A flush tells what it made durable: every staged append, in slot order, with
/// its digest; the floor and the snapshot where one was staged; the applied
/// commands in the order they were applied; and whether the floor it leaves
/// stands behind the chosen index it leaves.
pub proof fn law_flush_tells_what_it_wrote(d: DiskView, st: StageView, chunk_bytes: nat)
    requires
        st.accepted.dom().finite(),
    ensures
        ({
            let report = crate::flush::flush_report(d, st, chunk_bytes);
            let after = flush_disk(d, st, chunk_bytes);
            &&& forall|slot: u64| #[trigger]
                st.accepted.contains_key(slot) <==> exists|i: int|
                    0 <= i < report.accepted.len() && (#[trigger] report.accepted[i]).0 == slot
            &&& forall|i: int|
                0 <= i < report.accepted.len() ==> st.accepted.contains_key(
                    (#[trigger] report.accepted[i]).0,
                ) && report.accepted[i].1 == st.accepted[report.accepted[i].0].digest
            &&& forall|i: int, j: int|
                0 <= i < j < report.accepted.len() ==> (#[trigger] report.accepted[i]).0 < (
                #[trigger] report.accepted[j]).0
            &&& report.floor == st.floor
            &&& report.applies == st.applies
            &&& report.installed is Some <==> st.snapshot is Some
            &&& st.snapshot is Some ==> report.installed == Some(
                (st.snapshot->0.applied_count, st.snapshot->0.chain_hash),
            ) && report.landing == st.chosen
            &&& st.snapshot is None ==> report.landing is None
            &&& report.floor_behind_chosen <==> after.first_slot == 0 || (
            after.hard_state.chosen_index matches Some(chosen) && after.first_slot <= chosen + 1)
        }),
{
    let report = crate::flush::flush_report(d, st, chunk_bytes);
    let slots = ascending(st.accepted.dom());
    lemma_ascending_lists(st.accepted.dom());
    lemma_listing(st.accepted.dom());
    assert forall|i: int| 0 <= i < report.accepted.len() implies st.accepted.contains_key(
        (#[trigger] report.accepted[i]).0,
    ) && report.accepted[i].1 == st.accepted[report.accepted[i].0].digest by {
        assert(slots.contains(slots[i]));
    }
    assert forall|slot: u64| #[trigger] st.accepted.contains_key(slot) implies exists|i: int|
        0 <= i < report.accepted.len() && (#[trigger] report.accepted[i]).0 == slot by {
        assert(slots.contains(slot));
        let i = choose|i: int| 0 <= i < slots.len() && slots[i] == slot;
        assert(report.accepted[i].0 == slot);
    }
    assert forall|i: int, j: int| 0 <= i < j < report.accepted.len() implies (
    #[trigger] report.accepted[i]).0 < (#[trigger] report.accepted[j]).0 by {
        assert(slots[i] < slots[j]);
    }
}

/// The standing corruptions a flush resolves are exactly those of records it
/// re-wrote or dropped below its floor, of the live snapshot where a state was
/// flushed, and of rotted chunks whose point it superseded; every other entry of
/// the ledger stays as it was.
pub proof fn law_flush_resolves_what_it_rewrote(
    w: WorldView,
    key: u64,
    node: u64,
    st: StageView,
    i: int,
)
    requires
        0 <= i < w.corruptions.len(),
    ensures
        ({
            let d = w.disk_or_fresh(key);
            let was = w.corruptions[i];
            let after = flush_world(w, key, node, st);
            let now = after.corruptions[i];
            let standing = was.node == node && (was.outcome == CorruptionOutcome::Dormant
                || was.outcome == CorruptionOutcome::Reported);
            let rewritten = match was.record {
                StorageRecord::Accepted(slot) => d.entry_health.contains_key(slot) && (
                st.accepted.contains_key(slot) || st.floor is Some && slot
                    < after.disks[key].first_slot),
                StorageRecord::Snapshot => st.snapshot is Some || st.applied is Some,
                StorageRecord::SnapChunk(at, chunk) => d.snap_point is Some && st.snap_point is Some
                    && d.snap_point->0.at == at && st.snap_point->0.at != at && exists|c: int|
                    0 <= c < d.snap_chunk_health.len() && #[trigger] d.snap_chunk_health[c]
                        != RecordHealth::Clean && chunk == chunk_name(c),
                _ => false,
            };
            &&& after.corruptions.len() == w.corruptions.len()
            &&& standing && rewritten ==> now == CorruptionInjection {
                outcome: CorruptionOutcome::Recovered,
                ..was
            }
            &&& !(standing && rewritten) ==> now == was
        }),
{
    let d = w.disk_or_fresh(key);
    let after = flush_world(w, key, node, st);
    assert(after.disks[key] == flush_disk(d, st, w.chunk_bytes));
}

/// A flush takes the node's marks off the slots it re-wrote or dropped below its
/// floor, and off no others; other nodes' marks stay.
pub proof fn law_flush_clears_what_it_rewrote(
    w: WorldView,
    key: u64,
    node: u64,
    st: StageView,
    slot: u64,
    other: u64,
)
    requires
        other != key,
    ensures
        ({
            let after = flush_world(w, key, node, st);
            &&& after.marked(key, slot) <==> w.marked(key, slot) && !st.accepted.contains_key(slot)
                && slot >= after.disks[key].first_slot
            &&& after.marked(other, slot) <==> w.marked(other, slot)
            &&& after.injected == w.injected
            &&& after.parked == w.parked
            &&& after.unrecoverable == w.unrecoverable
        }),
{
}

/// Capturing a point freezes the state of that moment: it is the latest point at
/// once, and once flushed the disk holds it whole, whatever was rotten of the
/// point before.
pub proof fn law_captured_point_becomes_durable(s: StorageView, w: WorldView, at: u64)
    ensures
        ({
            let after = s.pointed(at);
            let with = durable(after, w);
            &&& after.application == s.application
            &&& after.latest_point(w) == Some(at)
            &&& with.snap_point == Some(SnapPointView { at, state: s.application })
            &&& forall|i: int|
                0 <= i < with.snap_chunk_health.len() ==> #[trigger] with.snap_chunk_health[i]
                    == RecordHealth::Clean
            &&& with == DiskView {
                snap_point: with.snap_point,
                snap_chunk_health: with.snap_chunk_health,
                ..durable(s, w)
            }
            &&& after.drained().latest_point(
                flush_world(w, after.key, after.node_id, after.stage),
            ) == Some(at)
        }),
{
}

/// A handle restores from the point on its disk exactly where that point is
/// whole, reaches the floor, and is ahead of what the handle has applied; it then
/// serves the point's state, and that state is durable with the next flush.
pub proof fn law_restore_takes_a_whole_point(s: StorageView, w: WorldView)
    requires
        s.stage.applied is None,
    ensures
        ({
            let (after, at) = s.restored(w);
            let d = w.disks[s.key];
            let usable = w.disks.contains_key(s.key) && d.snap_point is Some && (forall|i: int|
                0 <= i < d.snap_chunk_health.len() ==> #[trigger] d.snap_chunk_health[i]
                    == RecordHealth::Clean) && d.snap_point->0.at + 1 >= d.first_slot
                && s.application.applied_count <= d.snap_point->0.at;
            &&& usable <==> at is Some
            &&& usable ==> {
                &&& at == Some(d.snap_point->0.at)
                &&& after.application == d.snap_point->0.state
                &&& durable(after, w).chain == d.snap_point->0.state
                &&& after == StorageView {
                    application: after.application,
                    stage: StageView { snapshot: after.stage.snapshot, ..s.stage },
                    ..s
                }
            }
            &&& !usable ==> after == s
        }),
{
}

/// A stage that may skip its sync holds no promise, no accepted entry and no
/// configuration: flushing it or losing it leaves all three as they were.
pub proof fn law_relaxed_stage_loses_no_promise(s: StorageView, d: DiskView, chunk_bytes: nat)
    requires
        s.stage.accepted.dom().finite(),
    ensures
        s.relaxes_safely() <==> s.stage.ballot is None && s.stage.config_id is None && forall|
            slot: u64,
        | !#[trigger] s.stage.accepted.contains_key(slot),
        s.relaxes_safely() ==> {
            let after = flush_disk(d, s.stage, chunk_bytes);
            &&& after.hard_state.max_promised_ballot == d.hard_state.max_promised_ballot
            &&& after.hard_state.config_id == d.hard_state.config_id
            &&& forall|slot: u64| #[trigger]
                after.accepted.contains_key(slot) ==> d.accepted.contains_key(slot)
                    && after.accepted[slot] == d.accepted[slot]
        },
{
    let dom = s.stage.accepted.dom();
    if s.relaxes_safely() {
        assert forall|slot: u64| !#[trigger] s.stage.accepted.contains_key(slot) by {
            if dom.contains(slot) {
                vstd::set_lib::lemma_set_empty_equivalency_len(dom);
            }
        }
    }
    if forall|slot: u64| !#[trigger] s.stage.accepted.contains_key(slot) {
        assert(dom =~= Set::<u64>::empty()) by {
            assert forall|slot: u64| !#[trigger] dom.contains(slot) by {
                assert(!s.stage.accepted.contains_key(slot));
            }
        }
    }
}

/// A chunk is served exactly where its point is retained, the chunk lies in it,
/// and it is not rotten; it is then the point's own bytes, at its own place.
pub proof fn law_chunk_reads_its_own_bytes(w: WorldView, key: u64, at: u64, chunk: u32)
    requires
        w.chunk_bytes > 0,
        w.disks.contains_key(key),
        w.disks[key].snap_point is Some,
    ensures
        ({
            let d = w.disks[key];
            let blob = d.snap_point->0.state.blob;
            let start = chunk as int * w.chunk_bytes;
            let bad = chunk < d.snap_chunk_health.len() && d.snap_chunk_health[chunk as int]
                != RecordHealth::Clean;
            match chunk_read(w, key, at, chunk) {
                Some(bytes) => {
                    &&& d.snap_point->0.at == at && start < blob.len() && !bad
                    &&& 0 < bytes.len() <= w.chunk_bytes
                    &&& bytes.len() == w.chunk_bytes || start + bytes.len() == blob.len()
                    &&& forall|i: int|
                        0 <= i < bytes.len() ==> #[trigger] bytes[i] == blob[start + i]
                },
                None => d.snap_point->0.at != at || start >= blob.len() || bad,
            }
        }),
{
    let d = w.disks[key];
    let start = chunk as int * w.chunk_bytes;
    assert(start >= 0) by (nonlinear_arith)
        requires
            start == chunk as int * w.chunk_bytes,
    ;
}

/// A peer's chunk is taken exactly if it is, byte for byte, the one its owner
/// would serve of the same point; taking it makes that chunk clean and no other,
/// and changes nothing else on disk.
pub proof fn law_peer_chunk_must_match(
    w: WorldView,
    key: u64,
    node: u64,
    at: u64,
    chunk: u32,
    bytes: Seq<u8>,
    other: u32,
)
    requires
        w.chunk_bytes > 0,
        other != chunk,
    ensures
        ({
            let d = w.disks[key];
            let after = chunk_written(w, key, node, at, chunk).disks[key];
            &&& retains_chunk(w, key, at, chunk) && d.chunk_clean(chunk as int) ==> (chunk_matches(
                w,
                key,
                at,
                chunk,
                bytes,
            ) <==> chunk_read(w, key, at, chunk) == Some(bytes))
            &&& chunk_matches(w, key, at, chunk, bytes) ==> {
                &&& bytes == chunk_bytes_of(d.snap_point->0.state.blob, chunk as int, w.chunk_bytes)
                &&& after.snap_point == d.snap_point
                &&& after.chain == d.chain
                &&& after.accepted == d.accepted
                &&& after.hard_state == d.hard_state
            }
        }),
{
}

/// The records of a batch are those that are staged, and no others: a captured point
/// and sealed sessions ride along with them and are not counted.
pub proof fn law_batch_counts_what_is_staged(st: StageView, slot: u64)
    requires
        st.accepted.dom().finite(),
    ensures
        ({
            let records = st.records();
            &&& records.contains(StorageRecord::ConfigId) <==> st.config_id is Some
            &&& records.contains(StorageRecord::Promise) <==> st.ballot is Some
            &&& records.contains(StorageRecord::Accepted(slot)) <==> st.accepted.contains_key(slot)
            &&& records.contains(StorageRecord::ChosenIndex) <==> st.chosen is Some
            &&& records.contains(StorageRecord::Truncation) <==> st.floor is Some
            &&& records.contains(StorageRecord::Snapshot) <==> st.snapshot is Some
            &&& records.contains(StorageRecord::Application(slot)) <==> exists|i: int|
                0 <= i < st.applies.len() && (#[trigger] st.applies[i]).slot == slot
        }),
{
    let a = one_if(st.config_id is Some, StorageRecord::ConfigId);
    let b = one_if(st.ballot is Some, StorageRecord::Promise);
    let c = st.accepted_records();
    let d = one_if(st.chosen is Some, StorageRecord::ChosenIndex);
    let e = one_if(st.floor is Some, StorageRecord::Truncation);
    let f = one_if(st.snapshot is Some, StorageRecord::Snapshot);
    let g = st.applied_records();
    assert forall|r: StorageRecord| #[trigger] st.records().contains(r) <==> a.contains(r)
        || b.contains(r) || c.contains(r) || d.contains(r) || e.contains(r) || f.contains(r)
        || g.contains(r) by {
        lemma_joined(a, b, r);
        lemma_joined(a + b, c, r);
        lemma_joined(a + b + c, d, r);
        lemma_joined(a + b + c + d, e, r);
        lemma_joined(a + b + c + d + e, f, r);
        lemma_joined(a + b + c + d + e + f, g, r);
    }
    lemma_one_if(st.config_id is Some, StorageRecord::ConfigId);
    lemma_one_if(st.ballot is Some, StorageRecord::Promise);
    lemma_one_if(st.chosen is Some, StorageRecord::ChosenIndex);
    lemma_one_if(st.floor is Some, StorageRecord::Truncation);
    lemma_one_if(st.snapshot is Some, StorageRecord::Snapshot);
    let slots = ascending(st.accepted.dom());
    lemma_ascending_lists(st.accepted.dom());
    assert forall|r: StorageRecord| #[trigger] c.contains(r) implies r is Accepted by {
        let i = choose|i: int| 0 <= i < c.len() && c[i] == r;
    }
    assert forall|r: StorageRecord| #[trigger] g.contains(r) implies r is Application by {
        let i = choose|i: int| 0 <= i < g.len() && g[i] == r;
    }
    assert(c.contains(StorageRecord::Accepted(slot)) <==> st.accepted.contains_key(slot)) by {
        if c.contains(StorageRecord::Accepted(slot)) {
            let i = choose|i: int| 0 <= i < c.len() && c[i] == StorageRecord::Accepted(slot);
            assert(slots[i] == slot);
            assert(slots.contains(slot));
        }
        if st.accepted.contains_key(slot) {
            assert(slots.contains(slot));
            let i = choose|i: int| 0 <= i < slots.len() && slots[i] == slot;
            assert(c[i] == StorageRecord::Accepted(slot));
        }
    }
    assert(g.contains(StorageRecord::Application(slot)) <==> exists|i: int|
        0 <= i < st.applies.len() && (#[trigger] st.applies[i]).slot == slot) by {
        if g.contains(StorageRecord::Application(slot)) {
            let i = choose|i: int| 0 <= i < g.len() && g[i] == StorageRecord::Application(slot);
            assert(st.applies[i].slot == slot);
        }
        if exists|i: int| 0 <= i < st.applies.len() && (#[trigger] st.applies[i]).slot == slot {
            let i = choose|i: int|
                0 <= i < st.applies.len() && (#[trigger] st.applies[i]).slot == slot;
            assert(g[i] == StorageRecord::Application(slot));
        }
    }
}

proof fn lemma_one_if(present: bool, record: StorageRecord)
    ensures
        forall|r: StorageRecord| #[trigger]
            one_if(present, record).contains(r) <==> present && r == record,
{
    if present {
        assert(one_if(present, record)[0] == record);
    }
}

proof fn lemma_joined(a: Seq<StorageRecord>, b: Seq<StorageRecord>, r: StorageRecord)
    ensures
        (a + b).contains(r) <==> a.contains(r) || b.contains(r),
{
    if (a + b).contains(r) {
        let i = choose|i: int| 0 <= i < (a + b).len() && (a + b)[i] == r;
        if i < a.len() {
            assert(a[i] == r);
        } else {
            assert(b[i - a.len()] == r);
        }
    }
    if a.contains(r) {
        let i = choose|i: int| 0 <= i < a.len() && a[i] == r;
        assert((a + b)[i] == r);
    }
    if b.contains(r) {
        let i = choose|i: int| 0 <= i < b.len() && b[i] == r;
        assert((a + b)[a.len() + i] == r);
    }
}

/// The torn slots are the lowest of the appends that are new to the disk, as many as
/// were drawn, but none past the first that the budget refuses: each of them keeps
/// a clean quorum without this copy.
pub proof fn law_torn_prefix_is_budgeted(s: StorageView, w: WorldView, draw: u64)
    ensures
        ({
            let fresh = ascending(s.fresh_slots(w));
            let torn = s.torn_slots(w, draw);
            let drawn = if fresh.len() == 0 {
                0
            } else {
                1 + draw as int % fresh.len() as int
            };
            &&& torn.len() <= drawn <= fresh.len()
            &&& torn == fresh.take(torn.len() as int)
            &&& forall|i: int|
                0 <= i < torn.len() ==> w.copies_without(s.key, #[trigger] torn[i]) >= w.quorum()
            &&& torn.len() < drawn ==> w.copies_without(s.key, fresh[torn.len() as int])
                < w.quorum()
        }),
{
    let fresh = ascending(s.fresh_slots(w));
    if fresh.len() > 0 {
        vstd::arithmetic::div_mod::lemma_mod_bound(draw as int, fresh.len() as int);
        let drawn = 1 + draw as int % fresh.len() as int;
        let cut = fresh.take(drawn);
        lemma_permitted_prefix(w, s.key, cut);
        lemma_prefix_is_permitted(w, s.key, cut);
        let n = permitted_prefix(w, s.key, cut);
        let torn = s.torn_slots(w, draw);
        assert(torn == fresh.take(n));
        assert forall|i: int| 0 <= i < torn.len() implies w.copies_without(
            s.key,
            #[trigger] torn[i],
        ) >= w.quorum() by {
            assert(cut[i] == torn[i]);
        }
    } else {
        assert(s.torn_slots(w, draw) =~= fresh.take(0));
    }
}

proof fn lemma_prefix_is_permitted(w: WorldView, key: u64, slots: Seq<u64>)
    ensures
        ({
            let n = permitted_prefix(w, key, slots);
            &&& forall|i: int|
                0 <= i < n ==> w.copies_without(key, #[trigger] slots[i]) >= w.quorum()
            &&& n < slots.len() ==> w.copies_without(key, slots[n]) < w.quorum()
        }),
    decreases slots.len(),
{
    lemma_permitted_prefix(w, key, slots);
    if slots.len() > 0 {
        let front = slots.drop_last();
        lemma_prefix_is_permitted(w, key, front);
        lemma_permitted_prefix(w, key, front);
        let n = permitted_prefix(w, key, slots);
        assert forall|i: int| 0 <= i < n implies w.copies_without(key, #[trigger] slots[i])
            >= w.quorum() by {
            if i < front.len() {
                assert(front[i] == slots[i]);
            }
        }
        if n < front.len() {
            assert(front[n] == slots[n]);
        }
    }
}

/// A batch can be torn on purpose exactly where it appends something new and the
/// lowest such slot keeps a clean quorum without this copy: then something is torn,
/// whatever is drawn.
pub proof fn law_tearable_batch_tears_something(s: StorageView, w: WorldView, draw: u64)
    ensures
        s.tearable(w) <==> s.torn_slots(w, draw).len() > 0,
{
    law_torn_prefix_is_budgeted(s, w, draw);
    let fresh = ascending(s.fresh_slots(w));
    if fresh.len() > 0 {
        vstd::arithmetic::div_mod::lemma_mod_bound(draw as int, fresh.len() as int);
        if s.torn_slots(w, draw).len() > 0 {
            assert(s.torn_slots(w, draw)[0] == fresh[0]);
        }
    }
}

} // verus!
