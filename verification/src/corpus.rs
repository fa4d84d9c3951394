//! The evaluation corpus: enumerated recovery cases whose outcome is derived
//! before the cluster is asked.
//!
//! Every case runs on a fixed three-node cluster with a scripted lifecycle and
//! no chaos; every fault is a targeted injection. A slot with a clean copy left
//! must come back intact, and one without must be waited on, never made up.
use crate::chunk_masks::{MAX_MASK_CHUNKS, chunk_mask_space, is_chunk_masked};
use crate::chunk_masks::chunk_masked;
use crate::draws::sim_draw;
use crate::masks::{CORPUS_MASK_SPACE, CORPUS_NODES, CORPUS_SLOTS, held_prefix, hold_at};
use crate::ordered::{OrdSet, ascending, lemma_walk, lists, walked};
use crate::roles::{HostIp, host_views, rank_hosts, ranked};
use crate::script::{Act, CaseRun, Line, Owed, line};
use crate::workload::next_target;
use crate::world::{StorageWorld, WorldView};
use vstd::prelude::*;

verus! {

/// How many chunks the decided point of the chunk corpus is sliced into.
pub const POINT_CHUNKS: u32 = 5;

/// Where a slot-mask run's mask comes from.
#[derive(Clone, Copy, Debug, PartialEq, Eq, Structural)]
pub enum MaskSource {
    Fixed(u16),
    /// Drawn from the run's random stream.
    Seeded,
}

/// Where a chunk-mask run's mask comes from.
#[derive(Clone, Copy, Debug, PartialEq, Eq, Structural)]
pub enum ChunkMaskSource {
    Fixed(u32),
    Seeded,
}

/// The servers of a scripted case in rank order, or how many there are where it
/// is not three.
pub fn sorted_servers(servers: Vec<HostIp>) -> (sorted: Result<Vec<HostIp>, usize>)
    ensures
        ({
            let ranks = ranked(host_views(servers@));
            match sorted {
                Ok(hosts) => ranks.len() == CORPUS_NODES && host_views(hosts@) == ranks,
                Err(count) => ranks.len() != CORPUS_NODES && count == ranks.len(),
            }
        }),
{
    let hosts = rank_hosts(servers);
    assert(host_views(hosts@).len() == hosts@.len());
    if hosts.len() == CORPUS_NODES {
        Ok(hosts)
    } else {
        Err(hosts.len())
    }
}

/// One step of the payload's generator.
pub open spec fn xorshift(state: u64) -> u64 {
    let a = state ^ (state << 13u64);
    let b = a ^ (a >> 7u64);
    b ^ (b << 17u64)
}

pub open spec fn xorshifted(seed: u64, steps: nat) -> u64
    decreases steps,
{
    if steps == 0 {
        seed
    } else {
        xorshift(xorshifted(seed, (steps - 1) as nat))
    }
}

/// The payload of the request `seq`: the low bytes of the generator's states.
pub open spec fn payload_bytes(seq: u64) -> Seq<u8> {
    Seq::new(
        48,
        |i: int| (xorshifted(seq ^ 0x517c_c1b7_2722_0a95, (i + 1) as nat) % 256) as u8,
    )
}

/// A deterministic payload per request.
pub fn payload(seq: u64) -> (bytes: Vec<u8>)
    ensures
        bytes@ == payload_bytes(seq),
{
    let mut state: u64 = seq ^ 0x517c_c1b7_2722_0a95;
    let mut bytes: Vec<u8> = Vec::new();
    let mut i: usize = 0;
    while i < 48
        invariant
            i <= 48,
            state == xorshifted(seq ^ 0x517c_c1b7_2722_0a95, i as nat),
            bytes@ == payload_bytes(seq).take(i as int),
        decreases 48 - i,
    {
        state = state ^ (state << 13u64);
        state = state ^ (state >> 7u64);
        state = state ^ (state << 17u64);
        bytes.push((state % 256) as u8);
        i = i + 1;
        assert(bytes@ =~= payload_bytes(seq).take(i as int));
    }
    assert(bytes@ =~= payload_bytes(seq));
    bytes
}

/// The node to ask next: the leader that a reply hints at, unless there is no
/// such node or it is excluded; otherwise the next in turn.
pub open spec fn retargeted(
    target: usize,
    hint: Option<u64>,
    exclude: Option<usize>,
    nodes: usize,
) -> int {
    match hint {
        Some(leader) if leader < nodes && exclude != Some(leader as usize) => leader as int,
        _ => (target + 1) % nodes as int,
    }
}

pub fn retarget(target: usize, hint: Option<u64>, exclude: Option<usize>, nodes: usize) -> (next:
    usize)
    requires
        target < nodes,
    ensures
        next == retargeted(target, hint, exclude, nodes),
        next < nodes,
{
    if let Some(leader) = hint {
        if leader < nodes as u64 && exclude != Some(leader as usize) {
            return leader as usize;
        }
    }
    next_target(target, nodes)
}

/// The node to ask, given whose turn it is: the next one, where that one is
/// excluded.
pub open spec fn aimed(target: usize, exclude: Option<usize>, nodes: usize) -> int {
    if exclude == Some(target) {
        (target + 1) % nodes as int
    } else {
        target as int
    }
}

pub fn aim(target: usize, exclude: Option<usize>, nodes: usize) -> (node: usize)
    requires
        target < nodes,
    ensures
        node == aimed(target, exclude, nodes),
        node < nodes,
{
    if exclude == Some(target) {
        next_target(target, nodes)
    } else {
        target
    }
}

/// What a node answered: whether it did what was asked, and the leader it hints
/// at.
#[derive(Clone, Copy, Debug, PartialEq, Eq, Structural)]
pub struct AskReply {
    pub done: bool,
    pub leader: Option<u64>,
}

/// What follows a reply, or its absence.
#[derive(Clone, Copy, Debug, PartialEq, Eq, Structural)]
pub enum AskStep {
    Done,
    /// Ask that node next.
    Ask { target: usize },
}

/// What follows an answer, or the lack of one.
pub open spec fn asked_next(
    target: usize,
    reply: Option<AskReply>,
    exclude: Option<usize>,
    nodes: usize,
) -> AskStep {
    match reply {
        Some(reply) => if reply.done {
            AskStep::Done
        } else {
            AskStep::Ask { target: retargeted(target, reply.leader, exclude, nodes) as usize }
        },
        None => AskStep::Ask { target: ((target + 1) % nodes as int) as usize },
    }
}

/// What follows a request to `target`: it is done, or the node to ask next.
pub fn ask_step(target: usize, reply: Option<AskReply>, exclude: Option<usize>, nodes: usize) -> (step:
    AskStep)
    requires
        target < nodes,
    ensures
        step == asked_next(target, reply, exclude, nodes),
        step matches AskStep::Ask { target } ==> target < nodes,
{
    match reply {
        Some(reply) => if reply.done {
            AskStep::Done
        } else {
            AskStep::Ask { target: retarget(target, reply.leader, exclude, nodes) }
        },
        None => AskStep::Ask { target: next_target(target, nodes) },
    }
}

/// Whether the decided slot is the one the script's model needs.
pub fn contiguous(slot: u64, slot_base: u64, offset: u64) -> (held: bool)
    ensures
        held == (slot == slot_base + offset),
{
    slot >= slot_base && slot - slot_base == offset
}

/// The durable application state a wait looks for.
#[derive(Clone, Copy, Debug, PartialEq, Eq, Structural)]
pub struct Applied {
    pub count: u64,
    pub chain_hash: u64,
}

impl WorldView {
    /// `key`'s durable application is at `want`.
    pub open spec fn applied_at(self, key: u64, want: Applied) -> bool {
        &&& self.disks.contains_key(key)
        &&& self.disks[key].chain.applied_count == want.count
        &&& self.disks[key].chain.chain_hash == want.chain_hash
    }

    /// `key` holds the first `slots` slots clean and has applied `want`.
    pub open spec fn replicated_on(self, key: u64, slots: u64, want: Applied) -> bool {
        &&& self.applied_at(key, want)
        &&& forall|slot: u64| slot < slots ==> #[trigger] self.disks[key].holds_clean(slot)
    }

    /// `key` retains the point at `point`, whole, above `floor`, and has applied
    /// `want`.
    pub open spec fn settled_on(self, key: u64, floor: u64, point: u64, want: Applied) -> bool {
        &&& self.applied_at(key, want)
        &&& self.disks[key].first_slot == floor
        &&& self.disks[key].has_point(point)
        &&& forall|chunk: u32| !#[trigger] self.disks[key].rotted_chunk(chunk)
    }

    /// Every faulty chunk of `key` is one that no node has clean.
    pub open spec fn healed_on(self, key: u64, lost: Set<u32>) -> bool {
        &&& self.disks.contains_key(key)
        &&& forall|chunk: u32| #[trigger]
            self.disks[key].rotted_chunk(chunk) ==> lost.contains(chunk)
    }

    /// Every lost chunk the mask rotted on `key`, its node `node`, is still
    /// faulty.
    pub open spec fn still_faulty_on(
        self,
        key: u64,
        node: int,
        mask: u32,
        chunks: int,
        lost: Set<u32>,
    ) -> bool {
        &&& self.disks.contains_key(key)
        &&& forall|chunk: u32| #[trigger]
            lost.contains(chunk) && chunk_masked(mask, chunks, node, chunk as int)
                ==> self.disks[key].rotted_chunk(chunk)
    }
}

impl StorageWorld {
    fn replicated_one(&self, key: u64, slots: u64, want: Applied) -> (held: bool)
        ensures
            held == self@.replicated_on(key, slots, want),
    {
        match self.corpus_disk_probe(key) {
            Some(probe) => {
                if probe.applied_count != want.count || probe.chain_hash != want.chain_hash {
                    return false;
                }
                let mut slot: u64 = 0;
                while slot < slots
                    invariant
                        slot <= slots,
                        self@.disks.contains_key(key),
                        probe.clean_slots@ == self@.disks[key].clean_slots(),
                        forall|s: u64| s < slot ==> #[trigger] self@.disks[key].holds_clean(s),
                    decreases slots - slot,
                {
                    if !probe.clean_slots.contains(slot) {
                        assert(!self@.disks[key].holds_clean(slot));
                        return false;
                    }
                    slot = slot + 1;
                }
                true
            },
            None => false,
        }
    }

    /// Whether the nodes from `from` to before `to` hold the first `slots` slots
    /// clean and have applied `want`.
    pub fn replicated(&self, keys: &Vec<u64>, from: usize, to: usize, slots: u64, want: Applied) -> (held:
        bool)
        requires
            from <= to <= keys@.len(),
        ensures
            held == forall|i: int|
                from <= i < to ==> self@.replicated_on(#[trigger] keys@[i], slots, want),
    {
        let mut i = from;
        while i < to
            invariant
                from <= i <= to <= keys@.len(),
                forall|j: int|
                    from <= j < i ==> self@.replicated_on(#[trigger] keys@[j], slots, want),
            decreases to - i,
        {
            if !self.replicated_one(keys[i], slots, want) {
                assert(!self@.replicated_on(keys@[i as int], slots, want));
                return false;
            }
            i = i + 1;
        }
        true
    }

    /// Whether the nodes from `from` to before `to` truncated at `floor`.
    pub fn floors_raised(&self, keys: &Vec<u64>, from: usize, to: usize, floor: u64) -> (held: bool)
        requires
            from <= to <= keys@.len(),
        ensures
            held == forall|i: int|
                from <= i < to ==> self@.disks.contains_key(#[trigger] keys@[i])
                    && self@.disks[keys@[i]].first_slot == floor,
    {
        let mut i = from;
        while i < to
            invariant
                from <= i <= to <= keys@.len(),
                forall|j: int|
                    from <= j < i ==> self@.disks.contains_key(#[trigger] keys@[j])
                        && self@.disks[keys@[j]].first_slot == floor,
            decreases to - i,
        {
            let raised = match self.corpus_disk_probe(keys[i]) {
                Some(probe) => probe.floor == floor,
                None => false,
            };
            if !raised {
                assert(!(self@.disks.contains_key(keys@[i as int])
                    && self@.disks[keys@[i as int]].first_slot == floor));
                return false;
            }
            i = i + 1;
        }
        true
    }

    fn settled_one(&self, key: u64, floor: u64, point: u64, want: Applied) -> (held: bool)
        ensures
            held == self@.settled_on(key, floor, point, want),
    {
        match self.corpus_disk_probe(key) {
            Some(probe) => {
                let whole = probe.faulty_chunks.is_empty();
                proof {
                    if !whole {
                        assert(exists|chunk: u32| probe.faulty_chunks@.contains(chunk)) by {
                            if forall|chunk: u32| !probe.faulty_chunks@.contains(chunk) {
                                assert(probe.faulty_chunks@ =~= Set::<u32>::empty());
                            }
                        }
                        let chunk = choose|chunk: u32| probe.faulty_chunks@.contains(chunk);
                        assert(self@.disks[key].rotted_chunk(chunk));
                    } else {
                        assert forall|chunk: u32| !#[trigger] self@.disks[key].rotted_chunk(
                            chunk,
                        ) by {
                            assert(!probe.faulty_chunks@.contains(chunk));
                        }
                    }
                }
                probe.floor == floor && probe.snap_point == Some(point) && whole
                    && probe.applied_count == want.count && probe.chain_hash == want.chain_hash
            },
            None => false,
        }
    }

    /// Whether every node retains the point at `point`, whole.
    pub fn points_settled(&self, keys: &Vec<u64>, floor: u64, point: u64, want: Applied) -> (held:
        bool)
        ensures
            held == forall|i: int|
                0 <= i < keys@.len() ==> self@.settled_on(#[trigger] keys@[i], floor, point, want),
    {
        let mut i: usize = 0;
        while i < keys.len()
            invariant
                i <= keys@.len(),
                forall|j: int|
                    0 <= j < i ==> self@.settled_on(#[trigger] keys@[j], floor, point, want),
            decreases keys@.len() - i,
        {
            if !self.settled_one(keys[i], floor, point, want) {
                assert(!self@.settled_on(keys@[i as int], floor, point, want));
                return false;
            }
            i = i + 1;
        }
        true
    }

    fn healed_one(&self, key: u64, lost: &OrdSet<u32>) -> (held: bool)
        ensures
            held == self@.healed_on(key, lost@),
    {
        match self.corpus_disk_probe(key) {
            Some(probe) => {
                let faulty = &probe.faulty_chunks;
                let n = faulty.len();
                let mut i: usize = 0;
                proof {
                    lemma_walk(faulty@, 0);
                }
                while i < n
                    invariant
                        i <= n,
                        n == faulty@.len(),
                        n == ascending(faulty@).len(),
                        lists(ascending(faulty@), faulty@),
                        self@.disks.contains_key(key),
                        forall|chunk: u32| #[trigger]
                            faulty@.contains(chunk) <==> self@.disks[key].rotted_chunk(chunk),
                        walked(faulty@, i as int).subset_of(lost@),
                    decreases n - i,
                {
                    proof {
                        lemma_walk(faulty@, i as int);
                    }
                    let chunk = faulty.at(i);
                    if !lost.contains(chunk) {
                        assert(self@.disks[key].rotted_chunk(chunk));
                        return false;
                    }
                    i = i + 1;
                }
                proof {
                    lemma_walk(faulty@, i as int);
                    assert forall|chunk: u32| #[trigger]
                        self@.disks[key].rotted_chunk(chunk) implies lost@.contains(chunk) by {
                        assert(faulty@.contains(chunk));
                    }
                }
                true
            },
            None => false,
        }
    }

    /// Whether every chunk that some node has clean is clean everywhere.
    pub fn chunks_healed(&self, keys: &Vec<u64>, lost: &OrdSet<u32>) -> (held: bool)
        ensures
            held == forall|i: int|
                0 <= i < keys@.len() ==> self@.healed_on(#[trigger] keys@[i], lost@),
    {
        let mut i: usize = 0;
        while i < keys.len()
            invariant
                i <= keys@.len(),
                forall|j: int| 0 <= j < i ==> self@.healed_on(#[trigger] keys@[j], lost@),
            decreases keys@.len() - i,
        {
            if !self.healed_one(keys[i], lost) {
                assert(!self@.healed_on(keys@[i as int], lost@));
                return false;
            }
            i = i + 1;
        }
        true
    }

    fn still_faulty_one(&self, key: u64, node: u32, mask: u32, chunks: u32, lost: &OrdSet<u32>) -> (held:
        bool)
        requires
            chunks <= MAX_MASK_CHUNKS,
            node < CORPUS_NODES,
            forall|chunk: u32| #[trigger] lost@.contains(chunk) ==> chunk < chunks,
        ensures
            held == self@.still_faulty_on(key, node as int, mask, chunks as int, lost@),
    {
        match self.corpus_disk_probe(key) {
            Some(probe) => {
                let faulty = &probe.faulty_chunks;
                let n = lost.len();
                let mut i: usize = 0;
                proof {
                    lemma_walk(lost@, 0);
                }
                while i < n
                    invariant
                        i <= n,
                        n == lost@.len(),
                        n == ascending(lost@).len(),
                        lists(ascending(lost@), lost@),
                        chunks <= MAX_MASK_CHUNKS,
                        node < CORPUS_NODES,
                        self@.disks.contains_key(key),
                        forall|chunk: u32| #[trigger] lost@.contains(chunk) ==> chunk < chunks,
                        forall|chunk: u32| #[trigger]
                            faulty@.contains(chunk) <==> self@.disks[key].rotted_chunk(chunk),
                        forall|chunk: u32| #[trigger]
                            walked(lost@, i as int).contains(chunk) && chunk_masked(
                                mask,
                                chunks as int,
                                node as int,
                                chunk as int,
                            ) ==> self@.disks[key].rotted_chunk(chunk),
                    decreases n - i,
                {
                    proof {
                        lemma_walk(lost@, i as int);
                    }
                    let chunk = lost.at(i);
                    if is_chunk_masked(mask, chunks, node, chunk) && !faulty.contains(chunk) {
                        assert(lost@.contains(chunk));
                        assert(!self@.disks[key].rotted_chunk(chunk));
                        return false;
                    }
                    assert(faulty@.contains(chunk) <==> self@.disks[key].rotted_chunk(chunk));
                    i = i + 1;
                }
                proof {
                    lemma_walk(lost@, i as int);
                    assert(walked(lost@, i as int) == lost@);
                }
                true
            },
            None => false,
        }
    }

    /// Whether every chunk without a clean copy is still faulty wherever the
    /// mask rotted it.
    pub fn chunks_still_faulty(
        &self,
        keys: &Vec<u64>,
        mask: u32,
        chunks: u32,
        lost: &OrdSet<u32>,
    ) -> (held: bool)
        requires
            keys@.len() == CORPUS_NODES,
            chunks <= MAX_MASK_CHUNKS,
            forall|chunk: u32| #[trigger] lost@.contains(chunk) ==> chunk < chunks,
        ensures
            held == forall|i: int|
                0 <= i < keys@.len() ==> self@.still_faulty_on(
                    #[trigger] keys@[i],
                    i,
                    mask,
                    chunks as int,
                    lost@,
                ),
    {
        let mut i: usize = 0;
        while i < keys.len()
            invariant
                i <= keys@.len(),
                keys@.len() == CORPUS_NODES,
                chunks <= MAX_MASK_CHUNKS,
                forall|chunk: u32| #[trigger] lost@.contains(chunk) ==> chunk < chunks,
                forall|j: int|
                    0 <= j < i ==> self@.still_faulty_on(
                        #[trigger] keys@[j],
                        j,
                        mask,
                        chunks as int,
                        lost@,
                    ),
            decreases keys@.len() - i,
        {
            if !self.still_faulty_one(keys[i], i as u32, mask, chunks, lost) {
                assert(!self@.still_faulty_on(
                    keys@[i as int],
                    i as int,
                    mask,
                    chunks as int,
                    lost@,
                ));
                return false;
            }
            i = i + 1;
        }
        true
    }
}

/// Whether a refusal below a floor came after the survivors were released, from
/// one of them.
pub fn refused_since(seq: u64, node: Option<u64>, released: u64) -> (held: bool)
    ensures
        held == (seq > released && (node matches Some(node) && node >= 1)),
{
    seq > released && match node {
        Some(node) => node >= 1,
        None => false,
    }
}

/// Whether an installed snapshot is the awaited one.
pub fn installed_past(node: Option<u64>, chosen: Option<u64>, awaited: u64, index: u64) -> (held:
    bool)
    ensures
        held == (node == Some(awaited) && (chosen matches Some(chosen) && chosen >= index)),
{
    node == Some(awaited) && match chosen {
        Some(chosen) => chosen >= index,
        None => false,
    }
}

fn plain(act: Act, owed: Owed) -> (written: Line)
    ensures
        written == line(act, owed),
{
    Line { act, owed, gated: false }
}

/// Prime `count` commands and see them replicated and applied everywhere.
pub open spec fn primed_lines(count: u64) -> Seq<Line> {
    seq![
        line(Act::Prime { count, exclude: None, seq_base: 0, slot_base: 0 }, Owed::Vital),
        line(
            Act::AwaitReplicated {
                from: 0,
                to: CORPUS_NODES,
                slots: count,
                applied: count as usize,
            },
            Owed::Vital,
        ),
    ]
}

fn prime_lines(count: u64) -> (script: Vec<Line>)
    requires
        count <= usize::MAX,
    ensures
        script@ == primed_lines(count),
{
    let mut script: Vec<Line> = Vec::new();
    script.push(
        plain(Act::Prime { count, exclude: None, seq_base: 0, slot_base: 0 }, Owed::Vital),
    );
    script.push(
        plain(
            Act::AwaitReplicated {
                from: 0,
                to: CORPUS_NODES,
                slots: count,
                applied: count as usize,
            },
            Owed::Vital,
        ),
    );
    assert(script@ =~= primed_lines(count));
    script
}

/// Slot masks over a fully replicated decided prefix.
#[derive(Clone, Copy, Debug, PartialEq, Eq, Structural)]
pub struct E1MaskWorkload {
    pub source: MaskSource,
    /// A recoverable mask converged intact.
    pub recovered_intact: bool,
    /// An unrecoverable one was waited on.
    pub waited_unrecoverable: bool,
}

/// A slot-mask case: prime, inject, and judge what the mask alone derives. With
/// a lost slot every node reaches the prefix below it and stays there; without
/// one every node comes back to the state before the injection.
pub open spec fn mask_script(mask: u16) -> Seq<Line> {
    primed_lines(CORPUS_SLOTS).push(line(Act::Inject, Owed::Judged)) + match held_prefix(mask) {
        Some(at) => seq![
            line(Act::AwaitAll { applied: at as usize }, Owed::Judged),
            Line { act: Act::HoldAll { applied: at as usize }, owed: Owed::Judged, gated: true },
        ],
        None => seq![line(Act::AwaitAll { applied: CORPUS_SLOTS as usize }, Owed::Judged)],
    }
}

impl E1MaskWorkload {
    /// What a run of the case shows.
    pub open spec fn judged(self, mask: u16, run: CaseRun) -> E1MaskWorkload {
        match held_prefix(mask) {
            Some(at) => E1MaskWorkload { waited_unrecoverable: run.tail(2), ..self },
            None => E1MaskWorkload { recovered_intact: run.tail(1), ..self },
        }
    }

    pub fn new(source: MaskSource) -> (workload: E1MaskWorkload)
        ensures
            workload == (E1MaskWorkload {
                source,
                recovered_intact: false,
                waited_unrecoverable: false,
            }),
    {
        E1MaskWorkload { source, recovered_intact: false, waited_unrecoverable: false }
    }

    /// The run's mask, given the draw a seeded one takes.
    pub fn mask_with(&self, draw: u64) -> (mask: u16)
        ensures
            mask < CORPUS_MASK_SPACE,
            mask == match self.source {
                MaskSource::Fixed(mask) => mask as int % CORPUS_MASK_SPACE as int,
                MaskSource::Seeded => draw as int % CORPUS_MASK_SPACE as int,
            },
    {
        match self.source {
            MaskSource::Fixed(mask) => mask % CORPUS_MASK_SPACE,
            MaskSource::Seeded => (draw % 512) as u16,
        }
    }

    /// The run's mask.
    pub fn mask(&self) -> (mask: u16)
        ensures
            mask < CORPUS_MASK_SPACE,
            self.source matches MaskSource::Fixed(fixed) ==> mask == fixed as int
                % CORPUS_MASK_SPACE as int,
    {
        match self.source {
            MaskSource::Fixed(_) => self.mask_with(0),
            MaskSource::Seeded => self.mask_with(sim_draw()),
        }
    }

    pub fn script(mask: u16) -> (script: Vec<Line>)
        ensures
            script@ == mask_script(mask),
    {
        let mut script = prime_lines(CORPUS_SLOTS);
        script.push(plain(Act::Inject, Owed::Judged));
        match hold_at(mask) {
            Some(at) => {
                let applied = at as usize;
                script.push(plain(Act::AwaitAll { applied }, Owed::Judged));
                script.push(
                    Line { act: Act::HoldAll { applied }, owed: Owed::Judged, gated: true },
                );
            },
            None => {
                script.push(plain(Act::AwaitAll { applied: 3 }, Owed::Judged));
            },
        }
        assert(script@ =~= mask_script(mask));
        script
    }

    /// Take in how the case went.
    pub fn judge(&mut self, mask: u16, run: &CaseRun)
        ensures
            *final(self) == old(self).judged(mask, *run),
    {
        match hold_at(mask) {
            Some(_) => {
                self.waited_unrecoverable = run.tail_held(2);
            },
            None => {
                self.recovered_intact = run.tail_held(1);
            },
        }
    }

    /// Whether the run judged its derived outcome at all.
    pub fn non_vacuous(&self) -> (judged: bool)
        ensures
            judged == (self.recovered_intact || self.waited_unrecoverable),
    {
        self.recovered_intact || self.waited_unrecoverable
    }
}

/// One slot decided by a bare quorum while the third node is down, then both
/// holders' copies rotted.
#[derive(Clone, Copy, Debug, PartialEq, Eq, Structural)]
pub struct BareQuorumWorkload {
    pub waited: bool,
}

pub open spec fn bare_quorum_script() -> Seq<Line> {
    primed_lines(2) + seq![
        line(Act::Hold { node: 2 }, Owed::Nothing),
        line(
            Act::Prime { count: 1, exclude: Some(2), seq_base: 2, slot_base: 2 },
            Owed::Vital,
        ),
        line(Act::AwaitReplicated { from: 0, to: 2, slots: 3, applied: 3 }, Owed::Judged),
        line(Act::Inject, Owed::Judged),
        line(Act::AwaitAll { applied: 2 }, Owed::Judged),
        line(Act::HoldAll { applied: 2 }, Owed::Judged),
    ]
}

impl BareQuorumWorkload {
    /// What a run of the case shows.
    pub open spec fn judged(self, run: CaseRun) -> BareQuorumWorkload {
        BareQuorumWorkload { waited: run.tail(2) }
    }

    pub fn new() -> (workload: BareQuorumWorkload)
        ensures
            !workload.waited,
    {
        BareQuorumWorkload { waited: false }
    }

    pub fn script() -> (script: Vec<Line>)
        ensures
            script@ == bare_quorum_script(),
    {
        let mut script = prime_lines(2);
        script.push(plain(Act::Hold { node: 2 }, Owed::Nothing));
        script.push(
            plain(
                Act::Prime { count: 1, exclude: Some(2), seq_base: 2, slot_base: 2 },
                Owed::Vital,
            ),
        );
        script.push(
            plain(Act::AwaitReplicated { from: 0, to: 2, slots: 3, applied: 3 }, Owed::Judged),
        );
        script.push(plain(Act::Inject, Owed::Judged));
        script.push(plain(Act::AwaitAll { applied: 2 }, Owed::Judged));
        script.push(plain(Act::HoldAll { applied: 2 }, Owed::Judged));
        assert(script@ =~= bare_quorum_script());
        script
    }

    pub fn judge(&mut self, run: &CaseRun)
        ensures
            *final(self) == old(self).judged(*run),
    {
        self.waited = run.tail_held(2);
    }
}

/// Log-only, snapshotted, and snapshotted-and-truncated nodes in one run,
/// through all four ways back from a lost snapshot.
#[derive(Clone, Copy, Debug, PartialEq, Eq, Structural)]
pub struct SnapshotLifecycleWorkload {
    pub completed: bool,
}

pub open spec fn lifecycle_script() -> Seq<Line> {
    primed_lines(5) + seq![
        line(Act::RotSnapshot { node: 2, restart: true }, Owed::Nothing),
        line(Act::AwaitReplicated { from: 2, to: 3, slots: 5, applied: 5 }, Owed::Judged),
        line(Act::Hold { node: 0 }, Owed::Nothing),
        line(
            Act::Prime { count: 3, exclude: Some(0), seq_base: 5, slot_base: 5 },
            Owed::Vital,
        ),
        line(Act::Compact { up_to: 7, exclude: Some(0) }, Owed::Judged),
        line(Act::AwaitFloors { from: 1, to: 3, floor: 8 }, Owed::Vital),
        line(Act::Hold { node: 1 }, Owed::Nothing),
        line(Act::Hold { node: 2 }, Owed::Nothing),
        line(Act::RotSnapshot { node: 0, restart: false }, Owed::Nothing),
        line(Act::Release { node: 0 }, Owed::Nothing),
        line(Act::Sleep { ms: 4000 }, Owed::Nothing),
        line(Act::MarkRefusals, Owed::Nothing),
        line(Act::Release { node: 1 }, Owed::Nothing),
        line(Act::Release { node: 2 }, Owed::Nothing),
        line(Act::AwaitRefusal, Owed::Judged),
        line(Act::AwaitInstall { rank: 0, index: 8 }, Owed::Judged),
        line(Act::AwaitAll { applied: 10 }, Owed::Vital),
        line(Act::Inject, Owed::Judged),
        line(Act::AwaitAll { applied: 0 }, Owed::Judged),
        line(Act::HoldAll { applied: 0 }, Owed::Judged),
    ]
}

impl SnapshotLifecycleWorkload {
    /// What a run of the case shows.
    pub open spec fn judged(self, run: CaseRun) -> SnapshotLifecycleWorkload {
        SnapshotLifecycleWorkload { completed: run.tail(2) }
    }

    pub fn new() -> (workload: SnapshotLifecycleWorkload)
        ensures
            !workload.completed,
    {
        SnapshotLifecycleWorkload { completed: false }
    }

    pub fn script() -> (script: Vec<Line>)
        ensures
            script@ == lifecycle_script(),
    {
        let mut script = prime_lines(5);
        script.push(plain(Act::RotSnapshot { node: 2, restart: true }, Owed::Nothing));
        script.push(
            plain(Act::AwaitReplicated { from: 2, to: 3, slots: 5, applied: 5 }, Owed::Judged),
        );
        script.push(plain(Act::Hold { node: 0 }, Owed::Nothing));
        script.push(
            plain(
                Act::Prime { count: 3, exclude: Some(0), seq_base: 5, slot_base: 5 },
                Owed::Vital,
            ),
        );
        script.push(plain(Act::Compact { up_to: 7, exclude: Some(0) }, Owed::Judged));
        script.push(plain(Act::AwaitFloors { from: 1, to: 3, floor: 8 }, Owed::Vital));
        script.push(plain(Act::Hold { node: 1 }, Owed::Nothing));
        script.push(plain(Act::Hold { node: 2 }, Owed::Nothing));
        script.push(plain(Act::RotSnapshot { node: 0, restart: false }, Owed::Nothing));
        script.push(plain(Act::Release { node: 0 }, Owed::Nothing));
        script.push(plain(Act::Sleep { ms: 4000 }, Owed::Nothing));
        script.push(plain(Act::MarkRefusals, Owed::Nothing));
        script.push(plain(Act::Release { node: 1 }, Owed::Nothing));
        script.push(plain(Act::Release { node: 2 }, Owed::Nothing));
        script.push(plain(Act::AwaitRefusal, Owed::Judged));
        script.push(plain(Act::AwaitInstall { rank: 0, index: 8 }, Owed::Judged));
        script.push(plain(Act::AwaitAll { applied: 10 }, Owed::Vital));
        script.push(plain(Act::Inject, Owed::Judged));
        script.push(plain(Act::AwaitAll { applied: 0 }, Owed::Judged));
        script.push(plain(Act::HoldAll { applied: 0 }, Owed::Judged));
        assert(script@ =~= lifecycle_script());
        script
    }

    pub fn judge(&mut self, run: &CaseRun)
        ensures
            *final(self) == old(self).judged(*run),
    {
        self.completed = run.tail_held(2);
    }
}

/// Chunk masks over the retained decided point.
#[derive(Clone, Copy, Debug, PartialEq, Eq, Structural)]
pub struct ChunkMaskWorkload {
    pub source: ChunkMaskSource,
    /// Rot the first node's live snapshot too.
    pub rot_live_node0: bool,
    pub repaired_clean: bool,
    pub unassemblable_held: bool,
}

pub open spec fn chunk_mask_script() -> Seq<Line> {
    primed_lines(6) + seq![
        line(Act::Compact { up_to: 5, exclude: None }, Owed::Judged),
        line(Act::AwaitPoint { floor: 6, point: 6, applied: 8 }, Owed::Vital),
        line(Act::Inject, Owed::Judged),
        line(Act::AwaitAll { applied: 8 }, Owed::Judged),
        line(Act::AwaitChunks, Owed::Judged),
        line(Act::HoldChunks, Owed::Judged),
    ]
}

/// The case ran to its end, and the line `back` lines from it held.
pub open spec fn ended_with(run: CaseRun, back: int) -> bool {
    !run.aborted && run.held@.len() == run.script@.len() && back <= run.held@.len()
        && run.held@[run.held@.len() - back]
}

impl ChunkMaskWorkload {
    /// What a run of the case shows, `lost` being the chunks without a clean
    /// copy.
    pub open spec fn judged(self, mask: u32, lost: Set<u32>, run: CaseRun) -> ChunkMaskWorkload {
        ChunkMaskWorkload {
            repaired_clean: ended_with(run, 3) && ended_with(run, 2) && (mask != 0
                || self.rot_live_node0),
            unassemblable_held: ended_with(run, 1) && lost != Set::<u32>::empty(),
            ..self
        }
    }

    pub fn new(source: ChunkMaskSource, rot_live_node0: bool) -> (workload: ChunkMaskWorkload)
        ensures
            workload == (ChunkMaskWorkload {
                source,
                rot_live_node0,
                repaired_clean: false,
                unassemblable_held: false,
            }),
    {
        ChunkMaskWorkload {
            source,
            rot_live_node0,
            repaired_clean: false,
            unassemblable_held: false,
        }
    }

    /// The run's mask over `chunks` chunks, given the draw a seeded one takes.
    pub fn mask_with(&self, chunks: u32, draw: u64) -> (mask: u32)
        requires
            chunks <= MAX_MASK_CHUNKS,
        ensures
            ({
                let space = (1u32 << ((CORPUS_NODES * chunks) as u32)) as int;
                &&& mask < space
                &&& mask == match self.source {
                    ChunkMaskSource::Fixed(mask) => mask as int % space,
                    ChunkMaskSource::Seeded => draw as int % space,
                }
            }),
    {
        let space = chunk_mask_space(chunks);
        match self.source {
            ChunkMaskSource::Fixed(mask) => mask % space,
            ChunkMaskSource::Seeded => (draw % space as u64) as u32,
        }
    }

    /// The run's mask over `chunks` chunks.
    pub fn mask(&self, chunks: u32) -> (mask: u32)
        requires
            chunks <= MAX_MASK_CHUNKS,
        ensures
            ({
                let space = (1u32 << ((CORPUS_NODES * chunks) as u32)) as int;
                &&& mask < space
                &&& self.source matches ChunkMaskSource::Fixed(fixed) ==> mask == fixed as int
                    % space
            }),
    {
        match self.source {
            ChunkMaskSource::Fixed(_) => self.mask_with(chunks, 0),
            ChunkMaskSource::Seeded => self.mask_with(chunks, sim_draw()),
        }
    }

    pub fn script() -> (script: Vec<Line>)
        ensures
            script@ == chunk_mask_script(),
    {
        let mut script = prime_lines(6);
        script.push(plain(Act::Compact { up_to: 5, exclude: None }, Owed::Judged));
        script.push(plain(Act::AwaitPoint { floor: 6, point: 6, applied: 8 }, Owed::Vital));
        script.push(plain(Act::Inject, Owed::Judged));
        script.push(plain(Act::AwaitAll { applied: 8 }, Owed::Judged));
        script.push(plain(Act::AwaitChunks, Owed::Judged));
        script.push(plain(Act::HoldChunks, Owed::Judged));
        assert(script@ =~= chunk_mask_script());
        script
    }

    /// Take in how the case went: `lost` are the chunks without a clean copy.
    pub fn judge(&mut self, mask: u32, lost: &OrdSet<u32>, run: &CaseRun)
        ensures
            *final(self) == old(self).judged(mask, lost@, *run),
    {
        self.repaired_clean = run.line_held(3) && run.line_held(2) && (mask != 0
            || self.rot_live_node0);
        self.unassemblable_held = run.line_held(1) && !lost.is_empty();
    }
}

/// An excluded node is never asked, whatever a reply hints at, as long as there
/// is another.
pub proof fn law_excluded_node_is_never_asked(
    target: usize,
    hint: Option<u64>,
    exclude: usize,
    nodes: usize,
)
    requires
        target < nodes,
        nodes >= 2,
        exclude < nodes,
    ensures
        aimed(target, Some(exclude), nodes) != exclude,
        hint == Some(exclude as u64) ==> retargeted(target, hint, Some(exclude), nodes) == (target
            + 1) % nodes as int,
{
    if target == exclude {
        if target + 1 < nodes {
            vstd::arithmetic::div_mod::lemma_small_mod((target + 1) as nat, nodes as nat);
        } else {
            vstd::arithmetic::div_mod::lemma_mod_self_0(nodes as int);
        }
    }
}

/// A slot mask's case waits exactly where a slot is lost, and judges the
/// return of the whole prefix otherwise: its last line asks every node for the
/// state at the first lost slot, or for the full one.
pub proof fn law_mask_case_judges_its_derivation(mask: u16)
    ensures
        mask_script(mask).last().act == match held_prefix(mask) {
            Some(at) => Act::HoldAll { applied: at as usize },
            None => Act::AwaitAll { applied: CORPUS_SLOTS as usize },
        },
        mask_script(mask)[2].act == Act::Inject,
        mask_script(mask).len() == if held_prefix(mask) is Some {
            5nat
        } else {
            4nat
        },
{
}

} // verus!
