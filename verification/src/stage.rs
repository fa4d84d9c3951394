//! The un-synced batch: writes stage in the handle and reach the durable world
//! only on a sync. A crash before the fsync loses the whole batch.
use crate::disk::{SnapPoint, SnapPointView, point_view};
use crate::ordered::{OrdMap, ascending, lists};
use crate::records::{AppState, AppView, Ballot, Entry, EntryView, SealedSession, StorageRecord};
use vstd::prelude::*;

verus! {

/// What kind of command a transition applied.
#[derive(Clone, Copy, Debug, PartialEq, Eq, Structural)]
pub enum CommandKind {
    User,
    Noop,
    Other,
}

/// One contiguous application transition, as it is reported once durable.
#[derive(Clone, Copy, Debug, PartialEq, Eq, Structural)]
pub struct AppliedFact {
    pub slot: u64,
    /// How many commands are applied after this one.
    pub index: u64,
    pub command: u64,
    pub kind: CommandKind,
    /// The chain digest after this command.
    pub state: u64,
}

/// The writes staged since the last flush.
pub struct Stage {
    pub config_id: Option<u64>,
    pub ballot: Option<Ballot>,
    pub accepted: OrdMap<u64, Entry>,
    pub chosen: Option<u64>,
    pub floor: Option<u64>,
    /// An installed application state.
    pub snapshot: Option<AppState>,
    /// The state after the last staged apply.
    pub applied: Option<AppState>,
    pub applies: Vec<AppliedFact>,
    pub sealed: Vec<SealedSession>,
    /// A decided snapshot point captured at the apply seam.
    pub snap_point: Option<SnapPoint>,
}

#[verifier::ext_equal]
pub struct StageView {
    pub config_id: Option<u64>,
    pub ballot: Option<Ballot>,
    pub accepted: Map<u64, EntryView>,
    pub chosen: Option<u64>,
    pub floor: Option<u64>,
    pub snapshot: Option<AppView>,
    pub applied: Option<AppView>,
    pub applies: Seq<AppliedFact>,
    pub sealed: Seq<SealedSession>,
    pub snap_point: Option<SnapPointView>,
}

pub open spec fn app_view(state: Option<AppState>) -> Option<AppView> {
    match state {
        Some(state) => Some(state@),
        None => None,
    }
}

impl View for Stage {
    type V = StageView;

    open spec fn view(&self) -> StageView {
        StageView {
            config_id: self.config_id,
            ballot: self.ballot,
            accepted: self.accepted@,
            chosen: self.chosen,
            floor: self.floor,
            snapshot: app_view(self.snapshot),
            applied: app_view(self.applied),
            applies: self.applies@,
            sealed: self.sealed@,
            snap_point: point_view(self.snap_point),
        }
    }
}

/// A list of one record, or of none.
pub open spec fn one_if(present: bool, record: StorageRecord) -> Seq<StorageRecord> {
    if present {
        seq![record]
    } else {
        seq![]
    }
}

impl StageView {
    pub open spec fn empty() -> StageView {
        StageView {
            config_id: None,
            ballot: None,
            accepted: Map::empty(),
            chosen: None,
            floor: None,
            snapshot: None,
            applied: None,
            applies: Seq::empty(),
            sealed: Seq::empty(),
            snap_point: None,
        }
    }

    /// The staged accepted records, in slot order.
    pub open spec fn accepted_records(self) -> Seq<StorageRecord> {
        let slots = ascending(self.accepted.dom());
        Seq::new(slots.len(), |i: int| StorageRecord::Accepted(slots[i]))
    }

    /// The staged applies, in order.
    pub open spec fn applied_records(self) -> Seq<StorageRecord> {
        Seq::new(self.applies.len(), |i: int| StorageRecord::Application(self.applies[i].slot))
    }

    /// The records the next flush covers, in write order.
    pub open spec fn records(self) -> Seq<StorageRecord> {
        one_if(self.config_id is Some, StorageRecord::ConfigId) + one_if(
            self.ballot is Some,
            StorageRecord::Promise,
        ) + self.accepted_records() + one_if(self.chosen is Some, StorageRecord::ChosenIndex)
            + one_if(self.floor is Some, StorageRecord::Truncation) + one_if(
            self.snapshot is Some,
            StorageRecord::Snapshot,
        ) + self.applied_records()
    }

    /// The floor after staging a truncation at `first`.
    pub open spec fn raised_floor(self, first: u64) -> Option<u64> {
        match self.floor {
            Some(floor) if floor > first => Some(floor),
            _ => Some(first),
        }
    }
}

fn push_if(records: &mut Vec<StorageRecord>, present: bool, record: StorageRecord)
    ensures
        final(records)@ == old(records)@ + one_if(present, record),
{
    if present {
        records.push(record);
    }
    assert(records@ =~= old(records)@ + one_if(present, record));
}

impl Stage {
    pub fn empty() -> (stage: Stage)
        ensures
            stage@ == StageView::empty(),
    {
        Stage {
            config_id: None,
            ballot: None,
            accepted: OrdMap::new(),
            chosen: None,
            floor: None,
            snapshot: None,
            applied: None,
            applies: Vec::new(),
            sealed: Vec::new(),
            snap_point: None,
        }
    }

    /// The record identities currently staged (what the next flush covers).
    pub fn staged_records(&self) -> (records: Vec<StorageRecord>)
        ensures
            records@ == self@.records(),
    {
        let mut records: Vec<StorageRecord> = Vec::new();
        push_if(&mut records, self.config_id.is_some(), StorageRecord::ConfigId);
        push_if(&mut records, self.ballot.is_some(), StorageRecord::Promise);
        let ghost head = records@;
        let ghost slots = ascending(self.accepted@.dom());
        let n = self.accepted.len();
        let mut i: usize = 0;
        assert(records@ =~= head + self@.accepted_records().take(0));
        while i < n
            invariant
                i <= n,
                n == self.accepted@.dom().len(),
                n == slots.len(),
                slots == ascending(self.accepted@.dom()),
                records@ == head + self@.accepted_records().take(i as int),
            decreases n - i,
        {
            records.push(StorageRecord::Accepted(self.accepted.key_at(i)));
            i = i + 1;
            assert(records@ =~= head + self@.accepted_records().take(i as int));
        }
        assert(self@.accepted_records().take(i as int) =~= self@.accepted_records());
        push_if(&mut records, self.chosen.is_some(), StorageRecord::ChosenIndex);
        push_if(&mut records, self.floor.is_some(), StorageRecord::Truncation);
        push_if(&mut records, self.snapshot.is_some(), StorageRecord::Snapshot);
        let ghost head = records@;
        let mut i: usize = 0;
        assert(records@ =~= head + self@.applied_records().take(0));
        while i < self.applies.len()
            invariant
                i <= self.applies@.len(),
                records@ == head + self@.applied_records().take(i as int),
            decreases self.applies@.len() - i,
        {
            records.push(StorageRecord::Application(self.applies[i].slot));
            i = i + 1;
            assert(records@ =~= head + self@.applied_records().take(i as int));
        }
        assert(self@.applied_records().take(i as int) =~= self@.applied_records());
        records
    }

    /// Whether a sync has anything at stake.
    pub fn is_idle(&self) -> (idle: bool)
        ensures
            idle == (self@.records().len() == 0),
    {
        self.config_id.is_none() && self.ballot.is_none() && self.accepted.len() == 0
            && self.chosen.is_none() && self.floor.is_none() && self.snapshot.is_none()
            && self.applies.len() == 0
    }

    /// Raise the staged floor to at least `first`.
    pub fn raise_floor(&mut self, first: u64)
        ensures
            final(self)@ == (StageView { floor: old(self)@.raised_floor(first), ..old(self)@ }),
    {
        self.floor = match self.floor {
            Some(floor) => if floor > first {
                Some(floor)
            } else {
                Some(first)
            },
            None => Some(first),
        };
    }

    /// The staged slots in ascending order.
    pub fn accepted_slots(&self) -> (slots: Vec<u64>)
        ensures
            slots@ == ascending(self@.accepted.dom()),
            lists(slots@, self@.accepted.dom()),
    {
        let mut slots: Vec<u64> = Vec::new();
        let n = self.accepted.len();
        let ghost list = ascending(self.accepted@.dom());
        let mut i: usize = 0;
        while i < n
            invariant
                i <= n,
                n == self.accepted@.dom().len(),
                n == list.len(),
                list == ascending(self.accepted@.dom()),
                slots@ == list.take(i as int),
            decreases n - i,
        {
            slots.push(self.accepted.key_at(i));
            i = i + 1;
            assert(slots@ =~= list.take(i as int));
        }
        assert(slots@ =~= list);
        slots
    }
}

} // verus!
