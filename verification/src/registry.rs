//! A matchmaker's durable registry: the scalars and the per-ballot
//! registration records, stored separately.
use crate::ordered::{MapKey, OrdMap, ascending, lemma_walk, lists, walked};
use crate::records::{Ballot, copy_bytes};
use vstd::prelude::*;

verus! {

/// A matchmaker's scalars: the garbage-collection watermark, and the rest of
/// them encoded.
pub struct MatchmakerScalars {
    pub gc_watermark: Ballot,
    pub body: Vec<u8>,
}

pub struct ScalarsView {
    pub gc_watermark: Ballot,
    pub body: Seq<u8>,
}

impl View for MatchmakerScalars {
    type V = ScalarsView;

    open spec fn view(&self) -> ScalarsView {
        ScalarsView { gc_watermark: self.gc_watermark, body: self.body@ }
    }
}

impl MatchmakerScalars {
    pub fn initial() -> (scalars: MatchmakerScalars)
        ensures
            scalars@ == ScalarsView::initial(),
    {
        MatchmakerScalars { gc_watermark: Ballot::zero(), body: Vec::new() }
    }

    pub fn copied(&self) -> (copy: MatchmakerScalars)
        ensures
            copy@ == self@,
    {
        MatchmakerScalars { gc_watermark: self.gc_watermark, body: copy_bytes(&self.body) }
    }
}

impl ScalarsView {
    pub open spec fn initial() -> ScalarsView {
        ScalarsView { gc_watermark: Ballot::lowest(), body: Seq::empty() }
    }
}

/// The registrations, each encoded, keyed by ballot.
pub type Registrations = OrdMap<Ballot, Vec<u8>>;

/// A copy of some registrations.
pub fn copy_registrations(registry: &Registrations) -> (copy: Registrations)
    ensures
        copy@ == registry@,
{
    let mut copy: Registrations = OrdMap::new();
    let n = registry.len();
    let ghost dom = registry@.dom();
    let mut i: usize = 0;
    proof {
        lemma_walk(dom, 0);
        assert(copy@ =~= registry@.restrict(walked(dom, 0)));
    }
    while i < n
        invariant
            i <= n,
            dom == registry@.dom(),
            n == dom.len(),
            n == ascending(dom).len(),
            lists(ascending(dom), dom),
            copy@ == registry@.restrict(walked(dom, i as int)),
        decreases n - i,
    {
        proof {
            lemma_walk(dom, i as int);
        }
        copy.insert(registry.key_at(i), copy_bytes(registry.value_at(i)));
        i = i + 1;
        assert(copy@ =~= registry@.restrict(walked(dom, i as int)));
    }
    proof {
        lemma_walk(dom, n as int);
        assert(copy@ =~= registry@);
    }
    copy
}

/// One matchmaker's durable records.
pub struct MatchmakerDisk {
    pub hard_state: MatchmakerScalars,
    pub registry: Registrations,
}

#[verifier::ext_equal]
pub struct RegistryView {
    pub hard_state: ScalarsView,
    pub registry: Map<Ballot, Seq<u8>>,
}

impl View for MatchmakerDisk {
    type V = RegistryView;

    open spec fn view(&self) -> RegistryView {
        RegistryView { hard_state: self.hard_state@, registry: self.registry@ }
    }
}

/// One staged write, replayed in order at the sync.
pub enum Staged {
    Register(Ballot, Vec<u8>),
    Watermark(Ballot),
    Scalars(MatchmakerScalars),
    Install(MatchmakerScalars, Registrations),
}

pub enum StagedView {
    Register(Ballot, Seq<u8>),
    Watermark(Ballot),
    Scalars(ScalarsView),
    Install(ScalarsView, Map<Ballot, Seq<u8>>),
}

impl View for Staged {
    type V = StagedView;

    open spec fn view(&self) -> StagedView {
        match self {
            Staged::Register(ballot, registration) => StagedView::Register(*ballot, registration@),
            Staged::Watermark(watermark) => StagedView::Watermark(*watermark),
            Staged::Scalars(scalars) => StagedView::Scalars(scalars@),
            Staged::Install(scalars, registrations) => StagedView::Install(
                scalars@,
                registrations@,
            ),
        }
    }
}

/// The registrations at or above a watermark.
pub open spec fn above(registry: Map<Ballot, Seq<u8>>, watermark: Ballot) -> Map<Ballot, Seq<u8>> {
    registry.restrict(Set::new(|b: Ballot| b.rank() >= watermark.rank()))
}

impl RegistryView {
    pub open spec fn blank() -> RegistryView {
        RegistryView { hard_state: ScalarsView::initial(), registry: Map::empty() }
    }

    /// The records after one flushed write. The durable watermark never lowers
    /// but by an install: a scalar write carries the core's copy, which can lag
    /// a floor already flushed.
    pub open spec fn apply(self, op: StagedView) -> RegistryView {
        match op {
            StagedView::Register(ballot, registration) => RegistryView {
                registry: self.registry.insert(ballot, registration),
                ..self
            },
            StagedView::Watermark(watermark) => if self.hard_state.gc_watermark.rank()
                < watermark.rank() {
                RegistryView {
                    hard_state: ScalarsView { gc_watermark: watermark, ..self.hard_state },
                    registry: above(self.registry, watermark),
                }
            } else {
                self
            },
            StagedView::Scalars(scalars) => {
                let floor = scalars.gc_watermark.greater(self.hard_state.gc_watermark);
                RegistryView {
                    hard_state: ScalarsView { gc_watermark: floor, ..scalars },
                    registry: above(self.registry, floor),
                }
            },
            StagedView::Install(scalars, registrations) => RegistryView {
                hard_state: scalars,
                registry: above(registrations, scalars.gc_watermark),
            },
        }
    }

    /// Registrations are write-once: a re-write carries the same bytes.
    pub open spec fn keeps_write_once(self, op: StagedView) -> bool {
        op matches StagedView::Register(ballot, registration) ==> (self.registry.contains_key(
            ballot,
        ) ==> self.registry[ballot] == registration)
    }

    pub open spec fn apply_all(self, ops: Seq<StagedView>) -> RegistryView
        decreases ops.len(),
    {
        if ops.len() == 0 {
            self
        } else {
            self.apply_all(ops.drop_last()).apply(ops.last())
        }
    }

    /// Every write of the batch keeps registrations write-once.
    pub open spec fn all_write_once(self, ops: Seq<StagedView>) -> bool
        decreases ops.len(),
    {
        ops.len() > 0 ==> self.all_write_once(ops.drop_last()) && self.apply_all(
            ops.drop_last(),
        ).keeps_write_once(ops.last())
    }

    /// No registration is kept below the watermark.
    pub open spec fn pruned(self) -> bool {
        forall|b: Ballot| #[trigger]
            self.registry.contains_key(b) ==> b.rank() >= self.hard_state.gc_watermark.rank()
    }
}

impl MatchmakerDisk {
    pub fn blank() -> (disk: MatchmakerDisk)
        ensures
            disk@ == RegistryView::blank(),
    {
        MatchmakerDisk { hard_state: MatchmakerScalars::initial(), registry: OrdMap::new() }
    }

    fn prune(&mut self, watermark: Ballot)
        ensures
            final(self)@ == (RegistryView {
                registry: above(old(self)@.registry, watermark),
                ..old(self)@
            }),
    {
        self.registry.retain_from(watermark);
    }

    /// Apply one flushed write, in batch order; whether it kept registrations
    /// write-once.
    pub fn apply(&mut self, op: Staged) -> (write_once: bool)
        ensures
            final(self)@ == old(self)@.apply(op@),
            write_once == old(self)@.keeps_write_once(op@),
    {
        match op {
            Staged::Register(ballot, registration) => {
                let same = match self.registry.get(ballot) {
                    Some(previous) => same_bytes(previous, &registration),
                    None => true,
                };
                self.registry.insert(ballot, registration);
                same
            },
            Staged::Watermark(watermark) => {
                if self.hard_state.gc_watermark.precedes(watermark) {
                    self.hard_state.gc_watermark = watermark;
                    self.prune(watermark);
                }
                true
            },
            Staged::Scalars(scalars) => {
                let durable = self.hard_state.gc_watermark;
                let floor = scalars.gc_watermark.or_greater(durable);
                self.hard_state = MatchmakerScalars { gc_watermark: floor, body: scalars.body };
                self.prune(floor);
                true
            },
            Staged::Install(scalars, registrations) => {
                let floor = scalars.gc_watermark;
                self.registry = registrations;
                self.hard_state = scalars;
                self.prune(floor);
                true
            },
        }
    }
}

fn same_bytes(a: &Vec<u8>, b: &Vec<u8>) -> (same: bool)
    ensures
        same == (a@ == b@),
{
    if a.len() != b.len() {
        return false;
    }
    let mut i: usize = 0;
    while i < a.len()
        invariant
            i <= a@.len(),
            a@.len() == b@.len(),
            forall|j: int| 0 <= j < i ==> a@[j] == b@[j],
        decreases a@.len() - i,
    {
        if a[i] != b[i] {
            return false;
        }
        i = i + 1;
    }
    assert(a@ =~= b@);
    true
}

/// Apart from an install, no write lowers the durable watermark.
pub proof fn law_watermark_never_lowers(d: RegistryView, op: StagedView)
    requires
        !(op is Install),
    ensures
        d.apply(op).hard_state.gc_watermark.rank() >= d.hard_state.gc_watermark.rank(),
{
}

/// A registry that keeps nothing below its watermark goes on doing so, as long
/// as nothing is registered below it.
pub proof fn law_registry_stays_pruned(d: RegistryView, op: StagedView)
    requires
        d.pruned(),
        op matches StagedView::Register(ballot, _) ==> ballot.rank()
            >= d.hard_state.gc_watermark.rank(),
    ensures
        d.apply(op).pruned(),
{
}

/// A registration survives every later write but one that prunes or replaces
/// the registry: watermarks at or below it leave it as it was.
pub proof fn law_watermark_keeps_later_registrations(d: RegistryView, watermark: Ballot, b: Ballot)
    requires
        d.registry.contains_key(b),
        b.rank() >= watermark.rank(),
    ensures
        d.apply(StagedView::Watermark(watermark)).registry.contains_key(b),
        d.apply(StagedView::Watermark(watermark)).registry[b] == d.registry[b],
{
}

} // verus!
