//! The driver decisions a run perturbs: when each site is live, and how often
//! it fires. Every site is its own location, and all of them go dark with the
//! chaos window, which leaves the settle tail quiet.
use crate::draws::knob;
use crate::faults::knob_value;
use vstd::prelude::*;

verus! {

/// A durability point inside a ready batch.
#[derive(Clone, Copy, Debug, PartialEq, Eq, Structural)]
pub enum Seam {
    BeforeSync,
    AfterSyncBeforeSend,
    AfterApplyBeforeSync,
    BeforeChunkSync,
    AfterChunkRestoreBeforeSync,
    /// Consulted once per incarnation that had something to replay.
    AfterBootReplayBeforeSync,
}

/// What a message is, as far as losing or repeating it goes.
#[derive(Clone, Copy, Debug, PartialEq, Eq, Structural)]
pub enum MessageKind {
    Accept,
    Prepare,
    Promise,
    Nack,
    Commit,
    Accepted,
    Heartbeat,
    HeartbeatAck,
    InstallSnapshot,
    CatchUpResponse,
    CatchUpRequest,
    SnapAck,
    SnapChunkRequest,
    SnapChunkResponse,
    Relinquish,
    CheckLeader,
    Other,
}

/// A reply to a client.
#[derive(Clone, Copy, Debug, PartialEq, Eq, Structural)]
pub enum ReplyKind {
    Propose,
    ProposeDedup,
    Read,
    ProposeRedirect,
    ReadRedirect,
    Compact,
}

/// One decision site.
#[derive(Clone, Copy, Debug, PartialEq, Eq, Structural)]
pub enum Site {
    Crash(Seam),
    SkipAcceptResend,
    /// A message overtakes its peer's queue.
    Overtake,
    /// A peer's drain is held for a tick.
    HoldDelivery,
    /// A delivery batch arrives reversed.
    ReverseBatch,
    SkipSnapshotOffer,
    StretchTick,
    /// A full mailbox evicts across kinds.
    EvictAcrossKinds,
    Resign,
    Handoff { healing: bool, settled: bool },
    HandoffTarget,
    ShortestElectionTimeout,
    LongestElectionTimeout,
    SkipSnapAdvertisement,
    SkipChunkPull,
    Drop(MessageKind),
    Duplicate(MessageKind),
    DropReply(ReplyKind),
    WithholdSnapChunk,
    ExpireParkedRead,
}

/// How often an outgoing message is lost, in thousandths.
pub open spec fn drop_rate(kind: MessageKind) -> u64 {
    match kind {
        MessageKind::Accept | MessageKind::Commit | MessageKind::Accepted => 50,
        MessageKind::Prepare | MessageKind::Promise => 100,
        MessageKind::Nack | MessageKind::Relinquish | MessageKind::CheckLeader => 250,
        MessageKind::Heartbeat | MessageKind::HeartbeatAck => 20,
        MessageKind::InstallSnapshot
        | MessageKind::CatchUpResponse
        | MessageKind::CatchUpRequest
        | MessageKind::SnapAck
        | MessageKind::SnapChunkRequest
        | MessageKind::SnapChunkResponse => 100,
        MessageKind::Other => 0,
    }
}

/// How often one is sent twice, in thousandths: only kinds whose repetition
/// must not count twice.
pub open spec fn duplicate_rate(kind: MessageKind) -> u64 {
    match kind {
        MessageKind::Promise
        | MessageKind::Accepted
        | MessageKind::HeartbeatAck
        | MessageKind::Commit => 50,
        MessageKind::InstallSnapshot
        | MessageKind::CatchUpResponse
        | MessageKind::CatchUpRequest
        | MessageKind::SnapAck
        | MessageKind::SnapChunkRequest
        | MessageKind::SnapChunkResponse => 100,
        MessageKind::Relinquish => 250,
        _ => 0,
    }
}

/// How often a site fires while it is live, in thousandths.
pub open spec fn rate(site: Site, bias: u64) -> u64 {
    match site {
        Site::Crash(Seam::AfterBootReplayBeforeSync) => 250,
        Site::Crash(seam) => (30 * bias) as u64,
        Site::SkipAcceptResend => 950,
        Site::Overtake => 20,
        Site::HoldDelivery => 10,
        Site::ReverseBatch => 10,
        Site::SkipSnapshotOffer => 250,
        Site::StretchTick => 50,
        Site::EvictAcrossKinds => 100,
        Site::Resign => 4,
        Site::Handoff { healing, settled } => if healing {
            30
        } else if !settled {
            20
        } else {
            2
        },
        Site::HandoffTarget => 500,
        Site::ShortestElectionTimeout => 500,
        Site::LongestElectionTimeout => 500,
        Site::SkipSnapAdvertisement => 500,
        Site::SkipChunkPull => 500,
        Site::Drop(kind) => drop_rate(kind),
        Site::Duplicate(kind) => duplicate_rate(kind),
        Site::DropReply(kind) => 100,
        Site::WithholdSnapChunk => 250,
        Site::ExpireParkedRead => 50,
    }
}

/// One node's hooks.
#[derive(Clone, Copy, Debug, PartialEq, Eq, Structural)]
pub struct BuggifyHooks {
    /// The end of the chaos window, in milliseconds of simulated time.
    pub cutoff_ms: u64,
    pub enabled: bool,
    /// A multiple on the seam crashes. The seams are consulted only with a
    /// batch in flight, so this biases crashes into the write window.
    pub seam_crash_bias: u64,
}

impl BuggifyHooks {
    pub open spec fn valid(self) -> bool {
        1 <= self.seam_crash_bias <= 10
    }

    pub open spec fn live(self, now_ms: u64) -> bool {
        self.enabled && now_ms < self.cutoff_ms
    }

    /// The odds of a site's coin in thousandths; none where no coin is tossed.
    pub open spec fn odds_at(self, now_ms: u64, site: Site) -> Option<u64> {
        if self.live(now_ms) && rate(site, self.seam_crash_bias) > 0 {
            Some(rate(site, self.seam_crash_bias))
        } else {
            None
        }
    }

    /// The hooks of one node. Only a perturbing one draws its crash bias.
    pub fn new(cutoff_ms: u64, enabled: bool) -> (hooks: BuggifyHooks)
        ensures
            hooks.valid(),
            hooks.cutoff_ms == cutoff_ms,
            hooks.enabled == enabled,
            if enabled {
                knob_value(hooks.seam_crash_bias, 1, 4, 11)
            } else {
                hooks.seam_crash_bias == 1
            },
    {
        let seam_crash_bias: u64 = if enabled {
            knob(1, 4, 11, "hooks: seam crash bias")
        } else {
            1
        };
        BuggifyHooks { cutoff_ms, enabled, seam_crash_bias }
    }

    /// The hooks of a node whose shape fixes the bias.
    pub fn with_bias(cutoff_ms: u64, enabled: bool, seam_crash_bias: u64) -> (hooks: BuggifyHooks)
        ensures
            hooks == (BuggifyHooks { cutoff_ms, enabled, seam_crash_bias }),
    {
        BuggifyHooks { cutoff_ms, enabled, seam_crash_bias }
    }

    pub fn active(&self, now_ms: u64) -> (active: bool)
        ensures
            active == self.live(now_ms),
    {
        self.enabled && now_ms < self.cutoff_ms
    }

    /// The odds to toss a site's coin at, if it is tossed at all.
    pub fn odds(&self, now_ms: u64, site: Site) -> (odds: Option<u64>)
        requires
            self.valid(),
        ensures
            odds == self.odds_at(now_ms, site),
    {
        if !self.active(now_ms) {
            return None;
        }
        let rate: u64 = match site {
            Site::Crash(Seam::AfterBootReplayBeforeSync) => 250,
            Site::Crash(_) => 30 * self.seam_crash_bias,
            Site::SkipAcceptResend => 950,
            Site::Overtake => 20,
            Site::HoldDelivery | Site::ReverseBatch => 10,
            Site::SkipSnapshotOffer | Site::WithholdSnapChunk => 250,
            Site::StretchTick | Site::ExpireParkedRead => 50,
            Site::EvictAcrossKinds | Site::DropReply(_) => 100,
            Site::Resign => 4,
            Site::Handoff { healing, settled } => if healing {
                30
            } else if !settled {
                20
            } else {
                2
            },
            Site::HandoffTarget
            | Site::ShortestElectionTimeout
            | Site::LongestElectionTimeout
            | Site::SkipSnapAdvertisement
            | Site::SkipChunkPull => 500,
            Site::Drop(kind) => dropped(kind),
            Site::Duplicate(kind) => duplicated(kind),
        };
        if rate > 0 {
            Some(rate)
        } else {
            None
        }
    }

    /// Whether a site fires, given its coin.
    pub fn fires(&self, now_ms: u64, site: Site, coin: bool) -> (fires: bool)
        requires
            self.valid(),
        ensures
            fires == (coin && self.odds_at(now_ms, site) is Some),
    {
        coin && self.odds(now_ms, site).is_some()
    }

    /// Whether a seam crash that fired did so under a biased rate.
    pub fn biased(&self, fired: bool) -> (biased: bool)
        ensures
            biased == (fired && self.seam_crash_bias > 1),
    {
        fired && self.seam_crash_bias > 1
    }

    /// The successor to pin a handoff on: the lowest candidate, if the coin says
    /// so; otherwise the driver's own pick stands.
    pub fn handoff_target(&self, now_ms: u64, candidates: &Vec<u64>, coin: bool) -> (target: Option<
        u64,
    >)
        ensures
            target is Some <==> self.live(now_ms) && coin && candidates@.len() > 0,
            target matches Some(lowest) ==> candidates@.contains(lowest) && forall|i: int|
                0 <= i < candidates@.len() ==> lowest <= #[trigger] candidates@[i],
    {
        if !self.active(now_ms) || !coin || candidates.len() == 0 {
            return None;
        }
        let mut at: usize = 0;
        let mut i: usize = 1;
        while i < candidates.len()
            invariant
                at < i <= candidates@.len(),
                forall|j: int| 0 <= j < i ==> candidates@[at as int] <= #[trigger] candidates@[j],
            decreases candidates@.len() - i,
        {
            if candidates[i] < candidates[at] {
                at = i;
            }
            i = i + 1;
        }
        Some(candidates[at])
    }
}

fn dropped(kind: MessageKind) -> (rate: u64)
    ensures
        rate == drop_rate(kind),
{
    match kind {
        MessageKind::Accept | MessageKind::Commit | MessageKind::Accepted => 50,
        MessageKind::Nack | MessageKind::Relinquish | MessageKind::CheckLeader => 250,
        MessageKind::Heartbeat | MessageKind::HeartbeatAck => 20,
        MessageKind::Other => 0,
        _ => 100,
    }
}

fn duplicated(kind: MessageKind) -> (rate: u64)
    ensures
        rate == duplicate_rate(kind),
{
    match kind {
        MessageKind::Promise
        | MessageKind::Accepted
        | MessageKind::HeartbeatAck
        | MessageKind::Commit => 50,
        MessageKind::InstallSnapshot
        | MessageKind::CatchUpResponse
        | MessageKind::CatchUpRequest
        | MessageKind::SnapAck
        | MessageKind::SnapChunkRequest
        | MessageKind::SnapChunkResponse => 100,
        MessageKind::Relinquish => 250,
        _ => 0,
    }
}

/// Every hook is off outside the chaos window, and in a node that is not
/// perturbed.
pub proof fn law_hooks_go_quiet(hooks: BuggifyHooks, now_ms: u64, site: Site)
    requires
        !hooks.enabled || now_ms >= hooks.cutoff_ms,
    ensures
        hooks.odds_at(now_ms, site) is None,
{
}

/// Every site's odds are a probability, and none of them is a certainty.
pub proof fn law_odds_are_probabilities(hooks: BuggifyHooks, now_ms: u64, site: Site)
    requires
        hooks.valid(),
    ensures
        hooks.odds_at(now_ms, site) matches Some(odds) ==> 0 < odds < 1000,
{
}

/// A handoff that carries unfinished business is at least ten times as likely
/// as a settled one.
pub proof fn law_hard_handoffs_are_favoured(healing: bool, settled: bool, bias: u64)
    requires
        healing || !settled,
    ensures
        rate(Site::Handoff { healing, settled }, bias) >= 10 * rate(
            Site::Handoff { healing: false, settled: true },
            bias,
        ),
{
}

} // verus!
