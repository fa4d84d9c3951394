//! The vocabulary of the durable store: what a record is called, what its
//! bytes may turn out to be, and the typed errors a node crashes on.
use crate::ordered::MapKey;
use vstd::prelude::*;

verus! {

/// A ballot: rounds order first, then the proposing node.
#[derive(Clone, Copy, Debug, PartialEq, Eq, Structural)]
pub struct Ballot {
    pub round: u64,
    pub node: u64,
}

impl Ballot {
    /// The ballot below every other.
    pub open spec fn lowest() -> Ballot {
        Ballot { round: 0, node: 0 }
    }

    pub fn zero() -> (ballot: Ballot)
        ensures
            ballot == Ballot::lowest(),
    {
        Ballot { round: 0, node: 0 }
    }

    /// The greater of two ballots.
    pub open spec fn greater(self, other: Ballot) -> Ballot {
        if self.rank() < other.rank() {
            other
        } else {
            self
        }
    }

    pub fn or_greater(self, other: Ballot) -> (ballot: Ballot)
        ensures
            ballot == self.greater(other),
    {
        if self.precedes(other) {
            other
        } else {
            self
        }
    }
}

impl MapKey for Ballot {
    open spec fn rank(self) -> int {
        self.round as int * 0x1_0000_0000_0000_0000 + self.node as int
    }

    proof fn rank_is_injective(a: Self, b: Self) {
    }

    fn precedes(self, other: Self) -> (before: bool) {
        self.round < other.round || (self.round == other.round && self.node < other.node)
    }
}

/// One client request's identity: the client, and its sequence number.
#[derive(Clone, Copy, Debug, PartialEq, Eq, Structural)]
pub struct Session {
    pub client: u64,
    pub seq: u64,
}

impl MapKey for Session {
    open spec fn rank(self) -> int {
        self.client as int * 0x1_0000_0000_0000_0000 + self.seq as int
    }

    proof fn rank_is_injective(a: Self, b: Self) {
    }

    fn precedes(self, other: Self) -> (before: bool) {
        self.client < other.client || (self.client == other.client && self.seq < other.seq)
    }
}

/// A session sealed at the slot that first claimed it.
#[derive(Clone, Copy, Debug, PartialEq, Eq, Structural)]
pub struct SealedSession {
    pub session: Session,
    pub slot: u64,
}

/// The name of one durable record.
#[derive(Clone, Copy, Debug, PartialEq, Eq, Structural)]
pub enum StorageRecord {
    ConfigId,
    Promise,
    Accepted(u64),
    ChosenIndex,
    Truncation,
    Snapshot,
    Application(u64),
    /// One chunk of the decided snapshot point captured at a slot.
    SnapChunk(u64, u32),
    /// The whole staged batch.
    Batch,
    /// The whole store.
    Store,
}

/// How a record failed to read back.
#[derive(Clone, Copy, Debug, PartialEq, Eq, Structural)]
pub enum IntegrityFault {
    ChecksumMismatch,
    Misdirected,
    LostWrite,
    ReadError,
}

/// A file-granularity fault of the store itself.
#[derive(Clone, Copy, Debug, PartialEq, Eq, Structural)]
pub enum MetadataFault {
    Missing,
    WrongSize,
    ReadOnly,
}

/// What became of the identifier written beside an accepted entry.
#[derive(Clone, Copy, Debug, PartialEq, Eq, Structural)]
pub enum WitnessStatus {
    Present,
    Absent,
    Faulty,
}

/// What the log classifier concludes about one mismatching record.
#[derive(Clone, Copy, Debug, PartialEq, Eq, Structural)]
pub enum CorruptionVerdict {
    /// A torn, never acknowledged tail: the only thing a scan may discard.
    CrashTail,
    Corrupted,
    Undecidable,
}

/// Which row of the classifier's decision table one record fell on, as far as
/// the scan tells rows apart.
#[derive(Clone, Copy, Debug, PartialEq, Eq, Structural)]
pub enum CaseFamily {
    CorruptionBelowTail,
    IdentifierFaulty,
    LastEntryAmbiguity,
    IdentifierLostWithEntry,
    Other,
}

/// The classifier's answer for one retained record: `None` when the record
/// verifies.
#[derive(Clone, Copy, Debug, PartialEq, Eq, Structural)]
pub struct SlotCase {
    pub verdict: Option<CorruptionVerdict>,
    pub family: CaseFamily,
}

/// What a failed write says about its effect.
#[derive(Clone, Copy, Debug, PartialEq, Eq, Structural)]
pub enum WriteOutcome {
    /// The effect did not reach the disk.
    Lost,
    /// The effect may or may not have reached the disk.
    Unknown,
}

/// Whether a batch must be durable before anything is sent.
#[derive(Clone, Copy, Debug, PartialEq, Eq, Structural)]
pub enum MustSync {
    Sync,
    Relaxed,
}

/// The typed errors of the durable store.
#[allow(inconsistent_fields)]
#[derive(Clone, Copy, Debug, PartialEq, Eq, Structural)]
pub enum StorageError {
    Io { record: StorageRecord, outcome: WriteOutcome },
    FsyncFailed { record: StorageRecord, outcome: WriteOutcome },
    Corruption { record: StorageRecord, fault: IntegrityFault, verdict: CorruptionVerdict },
    Metadata { fault: MetadataFault },
}

/// The durable scalars of an acceptor.
#[derive(Clone, Copy, Debug, PartialEq, Eq, Structural)]
pub struct HardState {
    pub config_id: u64,
    pub max_promised_ballot: Ballot,
    pub chosen_index: Option<u64>,
}

impl HardState {
    pub open spec fn initial() -> HardState {
        HardState { config_id: 0, max_promised_ballot: Ballot::lowest(), chosen_index: None }
    }

    pub fn fresh() -> (state: HardState)
        ensures
            state == HardState::initial(),
    {
        HardState { config_id: 0, max_promised_ballot: Ballot::zero(), chosen_index: None }
    }
}

/// One accepted entry: the ballot it was accepted at, the command's bytes, and
/// the command's digest.
pub struct Entry {
    pub ballot: Ballot,
    pub command: Vec<u8>,
    pub digest: u64,
}

pub struct EntryView {
    pub ballot: Ballot,
    pub command: Seq<u8>,
    pub digest: u64,
}

impl View for Entry {
    type V = EntryView;

    open spec fn view(&self) -> EntryView {
        EntryView { ballot: self.ballot, command: self.command@, digest: self.digest }
    }
}

/// A deep copy of a byte string.
pub fn copy_bytes(bytes: &Vec<u8>) -> (copy: Vec<u8>)
    ensures
        copy@ == bytes@,
{
    let mut copy: Vec<u8> = Vec::new();
    copy.extend_from_slice(bytes.as_slice());
    assert(copy@ =~= bytes@);
    copy
}

impl Entry {
    pub fn copied(&self) -> (copy: Entry)
        ensures
            copy@ == self@,
    {
        Entry { ballot: self.ballot, command: copy_bytes(&self.command), digest: self.digest }
    }
}

/// An application state as the store holds it: how many commands it has
/// applied, the digest of their chain, and its encoding.
pub struct AppState {
    pub applied_count: u64,
    pub chain_hash: u64,
    pub blob: Vec<u8>,
}

pub struct AppView {
    pub applied_count: u64,
    pub chain_hash: u64,
    pub blob: Seq<u8>,
}

impl View for AppState {
    type V = AppView;

    open spec fn view(&self) -> AppView {
        AppView { applied_count: self.applied_count, chain_hash: self.chain_hash, blob: self.blob@ }
    }
}

impl AppView {
    /// The last slot folded into this state; slots apply contiguously from
    /// zero.
    pub open spec fn applied_slot(self) -> Option<u64> {
        if self.applied_count == 0 {
            None
        } else {
            Some((self.applied_count - 1) as u64)
        }
    }
}

impl AppState {
    pub fn copied(&self) -> (copy: AppState)
        ensures
            copy@ == self@,
    {
        AppState {
            applied_count: self.applied_count,
            chain_hash: self.chain_hash,
            blob: copy_bytes(&self.blob),
        }
    }

    pub fn applied_slot(&self) -> (slot: Option<u64>)
        ensures
            slot == self@.applied_slot(),
    {
        if self.applied_count == 0 {
            None
        } else {
            Some(self.applied_count - 1)
        }
    }
}

/// How many fixed-size chunks a blob of `len` bytes is sliced into.
pub open spec fn chunks_of(len: nat, chunk_bytes: nat) -> nat {
    ((len + chunk_bytes - 1) / chunk_bytes as int) as nat
}

/// The size, in bytes, of one snapshot chunk: never zero.
#[derive(Clone, Copy)]
pub struct ChunkSize {
    bytes: usize,
}

impl View for ChunkSize {
    type V = nat;

    closed spec fn view(&self) -> nat {
        self.bytes as nat
    }
}

impl ChunkSize {
    #[verifier::type_invariant]
    spec fn inv(self) -> bool {
        self.bytes > 0
    }

    /// `None` for a size of zero bytes.
    pub fn new(bytes: usize) -> (size: Option<ChunkSize>)
        ensures
            match size {
                Some(size) => bytes > 0 && size@ == bytes,
                None => bytes == 0,
            },
    {
        if bytes == 0 {
            None
        } else {
            Some(ChunkSize { bytes })
        }
    }

    pub fn bytes(self) -> (bytes: usize)
        ensures
            bytes == self@,
            bytes > 0,
    {
        proof {
            use_type_invariant(&self);
        }
        self.bytes
    }

    /// How many chunks a blob of `len` bytes is sliced into.
    pub fn snap_chunk_count(self, len: usize) -> (count: usize)
        ensures
            count == chunks_of(len as nat, self@),
    {
        let chunk_bytes = self.bytes();
        let whole = len / chunk_bytes;
        let rest = len % chunk_bytes;
        proof {
            lemma_chunks_of(len as int, chunk_bytes as int);
        }
        if rest == 0 {
            whole
        } else {
            whole + 1
        }
    }
}

proof fn lemma_chunks_of(len: int, size: int)
    requires
        len >= 0,
        size > 0,
    ensures
        len % size == 0 ==> (len + size - 1) / size == len / size,
        len % size != 0 ==> (len + size - 1) / size == len / size + 1,
        len / size <= len,
        len % size != 0 ==> len / size + 1 <= len,
{
    let q = len / size;
    let r = len % size;
    vstd::arithmetic::div_mod::lemma_fundamental_div_mod(len, size);
    assert(len == size * q + r);
    vstd::arithmetic::div_mod::lemma_div_pos_is_pos(len, size);
    assert(0 <= r < size);
    if r == 0 {
        assert(len + size - 1 == size * q + (size - 1));
        vstd::arithmetic::div_mod::lemma_fundamental_div_mod_converse(
            len + size - 1,
            size,
            q,
            size - 1,
        );
    } else {
        assert(len + size - 1 == size * (q + 1) + (r - 1)) by (nonlinear_arith)
            requires
                len == size * q + r,
        ;
        vstd::arithmetic::div_mod::lemma_fundamental_div_mod_converse(
            len + size - 1,
            size,
            q + 1,
            r - 1,
        );
    }
    assert(q <= len && (r != 0 ==> q + 1 <= len)) by (nonlinear_arith)
        requires
            len == size * q + r,
            size > 0,
            q >= 0,
            0 <= r,
    ;
}

} // verus!
