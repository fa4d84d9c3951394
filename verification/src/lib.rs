//! The decision core of a deterministic-simulation harness for a replicated log:
//! the durable world and its fault budget, the boot scan, the shape of a run,
//! the client scripts, and the checks that judge what a run showed.
//!
//! Two axes, one check. The *campaign* drives a cluster under chaos: every disk
//! fault is budgeted, so that faults never cost the cluster the quorum it
//! recovers from, and recovery is judged once the chaos window has closed. The
//! *corpus* runs scripted cases on three nodes, each with an outcome derived
//! before the cluster is asked.
//!
//! The library decides; its caller acts. Randomness that is a knob or a raw
//! draw is read here, through the two functions of [`draws`]; a coin tossed at
//! some odds comes in as a `bool`. Nodes are keyed by small integers, which
//! [`names`] hands out.
//!
//! - [`records`], [`disk`], [`stage`], [`storage`]: what a node's store holds,
//!   durably and in its stage.
//! - [`world`], [`ledger`], [`faults`], [`rot`], [`flush`], [`writes`],
//!   [`sync`], [`scan`]: what happens to it, fault by fault and write by write.
//! - [`budget`], [`durability`], [`journal`], [`decay`], [`recovery`],
//!   [`afflictions`]: the laws of the two together, from a write and a rotten
//!   record to what the next boot serves.
//! - [`registry`], [`matchmaker`], [`matchmaking`]: the matchmakers' registries,
//!   and the client that walks them.
//! - [`quorum`], [`roles`], [`shape`], [`process`], [`hooks`], [`lifecycle`]:
//!   who runs what, and how it is perturbed.
//! - [`workload`], [`protocol_bounds`], [`masks`], [`chunk_masks`], [`script`],
//!   [`corpus`]: what is asked of the cluster.
//! - [`oracle`], [`gates`], [`probe`]: what it is judged by.
//! - [`custody`], [`answers`], [`sizing`], [`conduct`], [`pacing`], [`paging`],
//!   [`cases`], [`agreement`]: the laws of the registries and their client, of a
//!   run's sizes and conduct, of the client scripts and the scripted cases, and of
//!   the verdicts on them.
pub mod afflictions;
pub mod agreement;
pub mod answers;
pub mod budget;
pub mod cases;
pub mod chunk_masks;
pub mod conduct;
pub mod corpus;
pub mod custody;
pub mod decay;
pub mod disk;
pub mod draws;
pub mod durability;
pub mod faults;
pub mod flush;
pub mod gates;
pub mod hooks;
pub mod journal;
pub mod ledger;
pub mod lifecycle;
pub mod masks;
pub mod matchmaker;
pub mod matchmaking;
pub mod names;
pub mod oracle;
pub mod ordered;
pub mod pacing;
pub mod paging;
pub mod probe;
pub mod process;
pub mod protocol_bounds;
pub mod quorum;
pub mod records;
pub mod recovery;
pub mod registry;
pub mod roles;
pub mod rot;
pub mod scan;
pub mod script;
pub mod shape;
pub mod sizing;
pub mod stage;
pub mod storage;
pub mod sync;
pub mod workload;
pub mod world;
pub mod writes;
use vstd::prelude::*;

verus! {

/// How long chaos fires in a run, in simulated milliseconds. What follows is
/// the recovery tail.
pub const CHAOS_DURATION_MS: u64 = 4000;

/// How long a scripted run keeps its chaos window open: its only injector is
/// the scripted lifecycle, which must reach every phase of the script.
pub const CORPUS_CHAOS_MS: u64 = 600_000;

/// The smallest and the largest acceptor pool of a campaign run.
pub const MIN_PROCESS_POOL: usize = 3;

pub const MAX_PROCESS_POOL: usize = 6;

/// The largest matchmaker pool; the smallest is none, the plain deployment.
pub const MAX_MATCHMAKER_POOL: usize = 5;

/// The fewest and the most concurrent clients.
pub const MIN_CLIENTS: usize = 1;

pub const MAX_CLIENTS: usize = 3;

/// A sweep stops once coverage has been stable for this many seeds.
pub const PLATEAU_SEEDS: usize = 8;

/// Cap on the fast smoke sweep.
pub const SMOKE_ITERATIONS: usize = 50;

/// Cap on the coverage run.
pub const COVERAGE_ITERATIONS: usize = 1024;

/// How many seeded slot masks one campaign samples.
pub const CORPUS_CI_ITERATIONS: usize = 64;

/// How many seeded chunk masks one campaign samples.
pub const CHUNK_CORPUS_CI_ITERATIONS: usize = 32;

/// The most timelines explored for each adaptive seed.
pub const EXPLORATION_TIMELINES_PER_SEED: u64 = 8;

/// A mask over the first two slots from six bits: node by node, two bits each.
pub open spec fn spread(low: u16) -> u16 {
    (low & 3) | (((low >> 2u16) & 3) << 3u16) | (((low >> 4u16) & 3) << 6u16)
}

/// The corners of the full grid that the two-slot grid lacks: the third slot
/// lost everywhere, each node fully rotted, everything lost, and every slot down
/// to exactly one clean copy.
pub open spec fn corner_masks() -> Seq<u16> {
    seq![0b100100100, 0b000000111, 0b000111000, 0b111000000, 0b111111111, 0b011101110]
}

/// The canonical slot masks.
pub open spec fn canonical_masks() -> Seq<u16> {
    Seq::new(64, |low: int| spread(low as u16)) + corner_masks()
}

proof fn lemma_spread(low: u16)
    by (bit_vector)
    requires
        low < 64,
    ensures
        ((low & 3) | (((low >> 2u16) & 3) << 3u16) | (((low >> 4u16) & 3) << 6u16))
            & 0b100100100u16 == 0,
        ((low & 3) | (((low >> 2u16) & 3) << 3u16) | (((low >> 4u16) & 3) << 6u16)) < 512u16,
{
}

fn hold_mask(masks: &Vec<u16>, mask: u16) -> (held: bool)
    ensures
        held == masks@.contains(mask),
{
    let mut i: usize = 0;
    while i < masks.len()
        invariant
            i <= masks@.len(),
            forall|j: int| 0 <= j < i ==> #[trigger] masks@[j] != mask,
        decreases masks@.len() - i,
    {
        if masks[i] == mask {
            assert(masks@[i as int] == mask);
            return true;
        }
        i = i + 1;
    }
    false
}

/// The canonical slot masks a corpus runner enumerates: the exhaustive grid of
/// two slots over three nodes, and the corners of the full one.
pub fn corpus_canonical_masks() -> (masks: Vec<u16>)
    ensures
        masks@ == canonical_masks(),
{
    let mut masks: Vec<u16> = Vec::new();
    let mut low: u16 = 0;
    while low < 64
        invariant
            low <= 64,
            masks@.len() == low,
            forall|i: int| 0 <= i < low ==> #[trigger] masks@[i] == spread(i as u16),
        decreases 64 - low,
    {
        masks.push((low & 3) | (((low >> 2u16) & 3) << 3u16) | (((low >> 4u16) & 3) << 6u16));
        low = low + 1;
    }
    let ghost grid = masks@;
    proof {
        assert(grid =~= Seq::new(64, |low: int| spread(low as u16)));
        assert(spread(21) == 0b001001001) by (bit_vector);
        assert(spread(42) == 0b010010010) by (bit_vector);
        assert(grid[21] == 0b001001001u16);
        assert(grid[42] == 0b010010010u16);
        assert forall|mask: u16| mask & 0b100100100u16 != 0 implies !#[trigger] grid.contains(
            mask,
        ) by {
            if grid.contains(mask) {
                let i = choose|i: int| 0 <= i < grid.len() && grid[i] == mask;
                lemma_spread(i as u16);
            }
        }
        assert(0b100100100u16 & 0b100100100u16 != 0 && 0b000000111u16 & 0b100100100u16 != 0
            && 0b000111000u16 & 0b100100100u16 != 0 && 0b111000000u16 & 0b100100100u16 != 0
            && 0b111111111u16 & 0b100100100u16 != 0 && 0b011101110u16 & 0b100100100u16 != 0) by (bit_vector);
    }
    let mut extras: Vec<u16> = Vec::new();
    extras.push(0b001001001);
    extras.push(0b010010010);
    extras.push(0b100100100);
    extras.push(0b000000111);
    extras.push(0b000111000);
    extras.push(0b111000000);
    extras.push(0b111111111);
    extras.push(0b011101110);
    let mut i: usize = 0;
    while i < extras.len()
        invariant
            i <= extras@.len(),
            extras@ == seq![
                0b001001001u16,
                0b010010010,
                0b100100100,
                0b000000111,
                0b000111000,
                0b111000000,
                0b111111111,
                0b011101110,
            ],
            grid.len() == 64,
            grid.contains(0b001001001),
            grid.contains(0b010010010),
            !grid.contains(0b100100100),
            !grid.contains(0b000000111),
            !grid.contains(0b000111000),
            !grid.contains(0b111000000),
            !grid.contains(0b111111111),
            !grid.contains(0b011101110),
            masks@ == grid + corner_masks().take(
                if i <= 2 {
                    0
                } else {
                    i - 2
                },
            ),
        decreases extras@.len() - i,
    {
        let extra = extras[i];
        let held = hold_mask(&masks, extra);
        proof {
            lemma_corner(grid, masks@, i as int);
        }
        if !held {
            masks.push(extra);
        }
        i = i + 1;
        assert(masks@ =~= grid + corner_masks().take(
            if i <= 2 {
                0
            } else {
                i - 2
            },
        ));
    }
    assert(corner_masks().take(6) =~= corner_masks());
    masks
}

/// Which corner masks are new when their turn comes.
proof fn lemma_corner(grid: Seq<u16>, masks: Seq<u16>, i: int)
    requires
        0 <= i < 8,
        masks == grid + corner_masks().take(
            if i <= 2 {
                0
            } else {
                i - 2
            },
        ),
        grid.contains(0b001001001),
        grid.contains(0b010010010),
        !grid.contains(0b100100100),
        !grid.contains(0b000000111),
        !grid.contains(0b000111000),
        !grid.contains(0b111000000),
        !grid.contains(0b111111111),
        !grid.contains(0b011101110),
    ensures
        masks.contains(0b001001001),
        masks.contains(0b010010010),
        i >= 2 ==> !masks.contains(corner_masks()[i - 2]),
{
    let at = choose|k: int| 0 <= k < grid.len() && grid[k] == 0b001001001u16;
    assert(masks[at] == 0b001001001u16);
    let at = choose|k: int| 0 <= k < grid.len() && grid[k] == 0b010010010u16;
    assert(masks[at] == 0b010010010u16);
    if i >= 2 && masks.contains(corner_masks()[i - 2]) {
        let k = choose|k: int| 0 <= k < masks.len() && masks[k] == corner_masks()[i - 2];
        if k < grid.len() {
            assert(grid[k] == corner_masks()[i - 2]);
            assert(grid.contains(corner_masks()[i - 2]));
        } else {
            assert(masks[k] == corner_masks()[k - grid.len()]);
        }
    }
}

/// The canonical chunk masks over a five-chunk point: no rot, one copy and two
/// copies lost, a chunk lost everywhere, a node's whole point lost, two cross
/// patterns, and everything lost.
pub open spec fn canonical_chunk_masks() -> Seq<u32> {
    seq![0, 0x1, 0x21, 0x421, 0x1f, 0x1041, 0x128c, 0x7fff]
}

pub fn chunk_corpus_canonical_masks() -> (masks: Vec<u32>)
    ensures
        masks@ == canonical_chunk_masks(),
{
    let mut masks: Vec<u32> = Vec::new();
    masks.push(0);
    masks.push(1u32 << 0);
    masks.push((1u32 << 0) | (1u32 << 5));
    masks.push((1u32 << 0) | (1u32 << 5) | (1u32 << 10));
    masks.push(0b11111);
    masks.push((1u32 << 0) | (1u32 << 6) | (1u32 << 12));
    masks.push((1u32 << 2) | (1u32 << 7) | (1u32 << 12) | (1u32 << 3) | (1u32 << 9));
    masks.push(0x7FFF);
    proof {
        assert(1u32 << 0 == 0x1) by (bit_vector);
        assert((1u32 << 0) | (1u32 << 5) == 0x21) by (bit_vector);
        assert((1u32 << 0) | (1u32 << 5) | (1u32 << 10) == 0x421) by (bit_vector);
        assert((1u32 << 0) | (1u32 << 6) | (1u32 << 12) == 0x1041) by (bit_vector);
        assert((1u32 << 2) | (1u32 << 7) | (1u32 << 12) | (1u32 << 3) | (1u32 << 9) == 0x128c)
            by (bit_vector);
        assert(masks@ =~= canonical_chunk_masks());
    }
    masks
}

/// The ping keep-alive of a connection.
#[derive(Clone, Copy, Debug, PartialEq, Eq, Structural)]
pub struct KeepAlive {
    pub interval_ms: u64,
    pub timeout_ms: u64,
    /// Whether a connection with no open stream is pinged too.
    pub while_idle: bool,
}

/// How a client's channel connects and is kept alive.
#[derive(Clone, Copy, Debug, PartialEq, Eq, Structural)]
pub struct ClientChannel {
    pub connection_ms: u64,
    pub keep_alive: Option<KeepAlive>,
}

/// The channel of a simulated client. It is pinged while idle: a probe is always
/// gone before a ping is due, so a connection left half-open by a restart would
/// otherwise never be found out.
pub fn client_channel_config(connection_ms: u64, interval_ms: u64, timeout_ms: u64) -> (channel:
    ClientChannel)
    ensures
        channel == (ClientChannel {
            connection_ms,
            keep_alive: Some(KeepAlive { interval_ms, timeout_ms, while_idle: true }),
        }),
{
    ClientChannel {
        connection_ms,
        keep_alive: Some(KeepAlive { interval_ms, timeout_ms, while_idle: true }),
    }
}

/// The channel at the production defaults.
pub fn default_client_channel_config() -> (channel: ClientChannel)
    ensures
        channel == (ClientChannel {
            connection_ms: 1000,
            keep_alive: Some(
                KeepAlive { interval_ms: 2000, timeout_ms: 1000, while_idle: true },
            ),
        }),
{
    client_channel_config(1000, 2000, 1000)
}

/// The digest of one seed's run, given what the run reported: how many
/// assertions it violated, and the digest its workload published. A run that
/// violated an assertion, or never reached its verdict, has none.
pub fn chain_seed_digest(violations: usize, published: Option<u64>) -> (digest: u64)
    requires
        violations == 0,
        published is Some,
    ensures
        published == Some(digest),
{
    match published {
        Some(digest) => digest,
        None => 0,
    }
}

/// The canonical masks are exhaustive over the first two slots: every mask that
/// touches no other slot is among them.
pub proof fn law_two_slot_grid_is_exhaustive(mask: u16)
    requires
        mask < 512,
        mask & 0b100100100 == 0,
    ensures
        canonical_masks().contains(mask),
{
    let low = (mask & 3) | ((mask >> 1u16) & 0b1100) | ((mask >> 2u16) & 0b110000);
    assert(low < 64 && ((low & 3) | (((low >> 2u16) & 3) << 3u16) | (((low >> 4u16) & 3) << 6u16))
        == mask) by (bit_vector)
        requires
            mask < 512,
            mask & 0b100100100 == 0,
            low == (mask & 3) | ((mask >> 1u16) & 0b1100) | ((mask >> 2u16) & 0b110000),
    ;
    assert(canonical_masks()[low as int] == spread(low));
}

/// The canonical masks hold every corner of the grid: each slot lost on every
/// node, each node fully rotted, and everything lost.
pub proof fn law_corners_are_canonical(k: u16)
    requires
        k < 3,
    ensures
        canonical_masks().contains(0b001001001u16 << k),
        canonical_masks().contains(0b111u16 << (3 * k)),
        canonical_masks().contains(0b111111111),
{
    assert(0b001001001u16 << 0u16 == 0b001001001 && 0b001001001u16 << 1u16 == 0b010010010
        && 0b001001001u16 << 2u16 == 0b100100100 && 0b111u16 << 0 == 0b000000111 && 0b111u16 << 3
        == 0b000111000 && 0b111u16 << 6 == 0b111000000) by (bit_vector);
    assert(0b001001001u16 & 0b100100100 == 0 && 0b010010010u16 & 0b100100100 == 0)
        by (bit_vector);
    law_two_slot_grid_is_exhaustive(0b001001001);
    law_two_slot_grid_is_exhaustive(0b010010010);
    assert(canonical_masks()[64] == 0b100100100);
    assert(canonical_masks()[65] == 0b000000111);
    assert(canonical_masks()[66] == 0b000111000);
    assert(canonical_masks()[67] == 0b111000000);
    assert(canonical_masks()[68] == 0b111111111);
}

/// Every canonical mask is a mask of the grid.
pub proof fn law_canonical_masks_fit(i: int)
    requires
        0 <= i < canonical_masks().len(),
    ensures
        canonical_masks()[i] < 512,
        canonical_masks().len() == 70,
{
    if i < 64 {
        lemma_spread(i as u16);
    }
}

} // verus!
