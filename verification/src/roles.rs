//! The per-seed deployment: which process of the topology plays which role.
//!
//! The map is a pure function of the two groups' addresses, so every process
//! and every workload derives the same one, and a restart never re-rolls a
//! node's role. A deployment without matchmakers is the plain one.
use vstd::prelude::*;

verus! {

/// The process group of the paros nodes.
pub const ACCEPTOR_GROUP: &'static str = "paros-node";

/// The process group of the matchmakers.
pub const MATCHMAKER_GROUP: &'static str = "paros-matchmaker";

/// An address as it orders: text that is no address comes first, then version
/// four, then version six.
#[derive(Clone, Copy, Debug, PartialEq, Eq, Structural)]
pub enum AddressKey {
    Unparsed,
    V4(u32),
    V6(u128),
}

impl AddressKey {
    pub open spec fn rank(self) -> int {
        match self {
            AddressKey::Unparsed => -1,
            AddressKey::V4(bits) => bits as int,
            AddressKey::V6(bits) => 0x1_0000_0000 + bits as int,
        }
    }

    pub fn precedes(self, other: AddressKey) -> (before: bool)
        ensures
            before == (self.rank() < other.rank()),
    {
        match (self, other) {
            (AddressKey::Unparsed, AddressKey::Unparsed) => false,
            (AddressKey::Unparsed, _) => true,
            (_, AddressKey::Unparsed) => false,
            (AddressKey::V4(a), AddressKey::V4(b)) => a < b,
            (AddressKey::V4(_), AddressKey::V6(_)) => true,
            (AddressKey::V6(_), AddressKey::V4(_)) => false,
            (AddressKey::V6(a), AddressKey::V6(b)) => a < b,
        }
    }
}

/// One process address: its text, and how it orders.
pub struct HostIp {
    pub text: String,
    pub key: AddressKey,
}

#[verifier::ext_equal]
pub struct HostView {
    pub text: Seq<char>,
    pub key: AddressKey,
}

impl View for HostIp {
    type V = HostView;

    open spec fn view(&self) -> HostView {
        HostView { text: self.text@, key: self.key }
    }
}

pub open spec fn host_views(hosts: Seq<HostIp>) -> Seq<HostView> {
    Seq::new(hosts.len(), |i: int| hosts[i]@)
}

/// A process's role: its rank among its own kind.
#[derive(Clone, Copy, Debug, PartialEq, Eq, Structural)]
pub enum Role {
    Acceptor(u64),
    /// Not an acceptor.
    Matchmaker(u64),
}

/// `list` in address order with `host` put in: after every host whose address
/// does not come later.
pub open spec fn placed(list: Seq<HostView>, host: HostView) -> Seq<HostView>
    decreases list.len(),
{
    if list.len() == 0 {
        seq![host]
    } else if host.key.rank() < list.last().key.rank() {
        placed(list.drop_last(), host).push(list.last())
    } else {
        list.push(host)
    }
}

/// The stable address order of some hosts.
pub open spec fn in_address_order(hosts: Seq<HostView>) -> Seq<HostView>
    decreases hosts.len(),
{
    if hosts.len() == 0 {
        seq![]
    } else {
        placed(in_address_order(hosts.drop_last()), hosts.last())
    }
}

/// A list without the texts that repeat their predecessor's.
pub open spec fn without_repeats(hosts: Seq<HostView>) -> Seq<HostView>
    decreases hosts.len(),
{
    if hosts.len() == 0 {
        seq![]
    } else {
        let before = without_repeats(hosts.drop_last());
        if before.len() > 0 && before.last().text == hosts.last().text {
            before
        } else {
            before.push(hosts.last())
        }
    }
}

/// A group's hosts in rank order.
pub open spec fn ranked(hosts: Seq<HostView>) -> Seq<HostView> {
    without_repeats(in_address_order(hosts))
}

/// The rank of an address in a group, if it has one.
pub open spec fn rank_of(hosts: Seq<HostView>, ip: Seq<char>) -> Option<int> {
    if exists|i: int| 0 <= i < hosts.len() && (#[trigger] hosts[i]).text == ip {
        Some(first_at(hosts, ip))
    } else {
        None
    }
}

pub open spec fn first_at(hosts: Seq<HostView>, ip: Seq<char>) -> int {
    choose|i: int|
        0 <= i < hosts.len() && (#[trigger] hosts[i]).text == ip && forall|j: int|
            0 <= j < i ==> (#[trigger] hosts[j]).text != ip
}

/// The seed's deployment: the acceptors and the matchmakers, each in rank
/// order.
pub struct Deployment {
    acceptors: Vec<HostIp>,
    matchmakers: Vec<HostIp>,
}

pub struct DeploymentView {
    pub acceptors: Seq<HostView>,
    pub matchmakers: Seq<HostView>,
}

impl View for Deployment {
    type V = DeploymentView;

    closed spec fn view(&self) -> DeploymentView {
        DeploymentView {
            acceptors: host_views(self.acceptors@),
            matchmakers: host_views(self.matchmakers@),
        }
    }
}

impl DeploymentView {
    /// The role of an address: an acceptor's first.
    pub open spec fn role(self, ip: Seq<char>) -> Option<Role> {
        match rank_of(self.acceptors, ip) {
            Some(rank) => Some(Role::Acceptor(rank as u64)),
            None => match rank_of(self.matchmakers, ip) {
                Some(rank) => Some(Role::Matchmaker(rank as u64)),
                None => None,
            },
        }
    }
}

/// Sort a group stably by address.
fn sort_hosts(hosts: Vec<HostIp>) -> (sorted: Vec<HostIp>)
    ensures
        host_views(sorted@) == in_address_order(host_views(hosts@)),
{
    let ghost all = host_views(hosts@);
    let mut hosts = hosts;
    let ghost given = hosts@;
    let mut sorted: Vec<HostIp> = Vec::new();
    let ghost mut done: int = 0;
    proof {
        assert(all.take(0) =~= Seq::<HostView>::empty());
        assert(host_views(sorted@) =~= Seq::<HostView>::empty());
        assert(given.skip(0) =~= given);
    }
    while hosts.len() > 0
        invariant
            0 <= done <= given.len(),
            all == host_views(given),
            hosts@ == given.skip(done),
            host_views(sorted@) == in_address_order(all.take(done)),
        decreases hosts.len(),
    {
        let host = hosts.remove(0);
        proof {
            assert(host == given[done]);
            assert(all[done] == host@);
            assert(all.take(done + 1).drop_last() =~= all.take(done));
            assert(all.take(done + 1).last() == host@);
        }
        place(&mut sorted, host);
        proof {
            done = done + 1;
            assert(hosts@ =~= given.skip(done));
        }
    }
    assert(all.take(done) =~= all);
    sorted
}

/// Put one host into a list in address order.
fn place(list: &mut Vec<HostIp>, host: HostIp)
    ensures
        host_views(final(list)@) == placed(host_views(old(list)@), host@),
{
    let ghost before = list@;
    let mut at = list.len();
    while at > 0 && host.key.precedes(list[at - 1].key)
        invariant
            at <= list@.len(),
            list@ == before,
            forall|j: int| at <= j < list@.len() ==> host.key.rank() < (#[trigger] list@[j]).key.rank(),
        decreases at,
    {
        at = at - 1;
    }
    let ghost view = host@;
    list.insert(at, host);
    proof {
        lemma_placed(host_views(before), view, at as int);
        assert(host_views(list@) =~= host_views(before).insert(at as int, view));
    }
}

proof fn lemma_placed(list: Seq<HostView>, host: HostView, at: int)
    requires
        0 <= at <= list.len(),
        forall|j: int| at <= j < list.len() ==> host.key.rank() < (#[trigger] list[j]).key.rank(),
        at > 0 ==> !(host.key.rank() < list[at - 1].key.rank()),
    ensures
        placed(list, host) == list.insert(at, host),
    decreases list.len(),
{
    if list.len() == 0 {
        assert(list.insert(at, host) =~= seq![host]);
    } else if at < list.len() {
        let front = list.drop_last();
        assert(list[list.len() - 1] == list.last());
        assert forall|j: int| at <= j < front.len() implies host.key.rank() < (
        #[trigger] front[j]).key.rank() by {
            assert(front[j] == list[j]);
        }
        if at > 0 {
            assert(front[at - 1] == list[at - 1]);
        }
        lemma_placed(front, host, at);
        assert(list.insert(at, host) =~= front.insert(at, host).push(list.last()));
    } else {
        assert(list.insert(at, host) =~= list.push(host));
    }
}

/// Drop the hosts whose text repeats their predecessor's.
fn drop_repeats(hosts: Vec<HostIp>) -> (kept: Vec<HostIp>)
    ensures
        host_views(kept@) == without_repeats(host_views(hosts@)),
{
    let ghost all = host_views(hosts@);
    let mut hosts = hosts;
    let ghost given = hosts@;
    let mut kept: Vec<HostIp> = Vec::new();
    let ghost mut done: int = 0;
    proof {
        assert(all.take(0) =~= Seq::<HostView>::empty());
        assert(host_views(kept@) =~= Seq::<HostView>::empty());
        assert(given.skip(0) =~= given);
    }
    while hosts.len() > 0
        invariant
            0 <= done <= given.len(),
            all == host_views(given),
            hosts@ == given.skip(done),
            host_views(kept@) == without_repeats(all.take(done)),
        decreases hosts.len(),
    {
        let host = hosts.remove(0);
        proof {
            assert(host == given[done]);
            assert(all[done] == host@);
            assert(all.take(done + 1).drop_last() =~= all.take(done));
            assert(all.take(done + 1).last() == host@);
        }
        let n = kept.len();
        let repeats = n > 0 && kept[n - 1].text == host.text;
        proof {
            if n > 0 {
                assert(host_views(kept@).last() == kept@[n - 1]@);
                assert(kept@[n - 1]@.text == kept@[n - 1].text@);
            }
        }
        let ghost before = kept@;
        if !repeats {
            kept.push(host);
            assert(host_views(kept@) =~= host_views(before).push(host@));
        }
        proof {
            done = done + 1;
            assert(hosts@ =~= given.skip(done));
        }
    }
    assert(all.take(done) =~= all);
    kept
}

fn position(hosts: &Vec<HostIp>, ip: &String) -> (rank: Option<usize>)
    ensures
        match rank {
            Some(rank) => rank_of(host_views(hosts@), ip@) == Some(rank as int),
            None => rank_of(host_views(hosts@), ip@) is None,
        },
{
    let ghost views = host_views(hosts@);
    let mut i: usize = 0;
    while i < hosts.len()
        invariant
            i <= hosts@.len(),
            views == host_views(hosts@),
            forall|j: int| 0 <= j < i ==> (#[trigger] views[j]).text != ip@,
        decreases hosts@.len() - i,
    {
        let same = hosts[i].text == *ip;
        assert(views[i as int].text == hosts@[i as int].text@);
        if same {
            proof {
                let first = first_at(views, ip@);
                assert(views[i as int].text == ip@ && forall|j: int|
                    0 <= j < i ==> (#[trigger] views[j]).text != ip@);
                if first < i {
                    assert(views[first].text != ip@);
                }
                if first > i {
                    assert(views[i as int].text != ip@);
                }
            }
            return Some(i);
        }
        i = i + 1;
    }
    None
}

/// Rank some hosts: in address order, each once.
pub fn rank_hosts(hosts: Vec<HostIp>) -> (ranks: Vec<HostIp>)
    ensures
        host_views(ranks@) == ranked(host_views(hosts@)),
{
    drop_repeats(sort_hosts(hosts))
}

impl Deployment {
    /// Build the map from two groups' hosts, in any order, repeats allowed.
    pub fn from_groups(acceptors: Vec<HostIp>, matchmakers: Vec<HostIp>) -> (map: Deployment)
        ensures
            map@.acceptors == ranked(host_views(acceptors@)),
            map@.matchmakers == ranked(host_views(matchmakers@)),
    {
        Deployment { acceptors: rank_hosts(acceptors), matchmakers: rank_hosts(matchmakers) }
    }

    /// The role of `ip`, or `None` outside the pool.
    pub fn role_of(&self, ip: &String) -> (role: Option<Role>)
        ensures
            role == self@.role(ip@),
    {
        if let Some(rank) = position(&self.acceptors, ip) {
            return Some(Role::Acceptor(rank as u64));
        }
        match position(&self.matchmakers, ip) {
            Some(rank) => Some(Role::Matchmaker(rank as u64)),
            None => None,
        }
    }

    /// The acceptor pool, in rank order.
    pub fn acceptors(&self) -> (hosts: &Vec<HostIp>)
        ensures
            host_views(hosts@) == self@.acceptors,
    {
        &self.acceptors
    }

    /// The matchmakers, in rank order; none on a plain seed.
    pub fn matchmakers(&self) -> (hosts: &Vec<HostIp>)
        ensures
            host_views(hosts@) == self@.matchmakers,
    {
        &self.matchmakers
    }

    /// Whether the deployment names at least one acceptor, as every one must.
    pub fn has_acceptors(&self) -> (named: bool)
        ensures
            named == (self@.acceptors.len() > 0),
    {
        self.acceptors.len() > 0
    }
}

proof fn lemma_placed_keeps_order(list: Seq<HostView>, host: HostView)
    requires
        forall|i: int, j: int|
            0 <= i <= j < list.len() ==> (#[trigger] list[i]).key.rank() <= (
            #[trigger] list[j]).key.rank(),
    ensures
        forall|i: int, j: int|
            0 <= i <= j < placed(list, host).len() ==> (#[trigger] placed(list, host)[i]).key.rank()
                <= (#[trigger] placed(list, host)[j]).key.rank(),
        forall|i: int|
            0 <= i < placed(list, host).len() ==> (#[trigger] placed(list, host)[i]) == host
                || list.contains(placed(list, host)[i]),
        placed(list, host).contains(host),
        forall|h: HostView| list.contains(h) ==> #[trigger] placed(list, host).contains(h),
    decreases list.len(),
{
    let out = placed(list, host);
    if list.len() == 0 {
        assert(out[0] == host);
    } else if host.key.rank() < list.last().key.rank() {
        let front = list.drop_last();
        let inner = placed(front, host);
        lemma_placed_keeps_order(front, host);
        assert forall|i: int| 0 <= i < inner.len() implies (#[trigger] inner[i]).key.rank()
            <= list.last().key.rank() by {
            if inner[i] != host {
                assert(front.contains(inner[i]));
                let j = front.index_of(inner[i]);
                assert(list[j] == inner[i]);
                assert(list[j].key.rank() <= list[list.len() - 1].key.rank());
            }
        }
        assert forall|i: int| 0 <= i < out.len() implies (#[trigger] out[i]) == host
            || list.contains(out[i]) by {
            if i < inner.len() {
                assert(out[i] == inner[i]);
                if inner[i] != host {
                    let j = front.index_of(inner[i]);
                    assert(list[j] == inner[i]);
                }
            } else {
                assert(list[list.len() - 1] == out[i]);
            }
        }
        assert forall|i: int, j: int| 0 <= i <= j < out.len() implies (
        #[trigger] out[i]).key.rank() <= (#[trigger] out[j]).key.rank() by {
            if j < inner.len() {
                assert(out[i] == inner[i]);
                assert(out[j] == inner[j]);
            } else if i < inner.len() {
                assert(out[i] == inner[i]);
            }
        }
        let at = inner.index_of(host);
        assert(out[at] == host);
        assert forall|h: HostView| list.contains(h) implies #[trigger] out.contains(h) by {
            let j = list.index_of(h);
            if j < front.len() {
                assert(front[j] == h);
                assert(inner.contains(h));
                let k = inner.index_of(h);
                assert(out[k] == h);
            } else {
                assert(out[inner.len() as int] == h);
            }
        }
    } else {
        assert(out[list.len() as int] == host);
        assert forall|i: int| 0 <= i < out.len() implies (#[trigger] out[i]) == host
            || list.contains(out[i]) by {
            if i < list.len() {
                assert(list[i] == out[i]);
            }
        }
        assert forall|h: HostView| list.contains(h) implies #[trigger] out.contains(h) by {
            let j = list.index_of(h);
            assert(out[j] == h);
        }
        assert forall|i: int, j: int| 0 <= i <= j < out.len() implies (
        #[trigger] out[i]).key.rank() <= (#[trigger] out[j]).key.rank() by {
            if j < list.len() {
                assert(list[i].key.rank() <= list[j].key.rank());
            } else if i < list.len() {
                assert(list[i].key.rank() <= list[list.len() - 1].key.rank());
            }
        }
    }
}

/// Address order is by address, and holds exactly the hosts it was given.
pub proof fn law_address_order_sorts(hosts: Seq<HostView>)
    ensures
        forall|i: int, j: int|
            0 <= i <= j < in_address_order(hosts).len() ==> (
            #[trigger] in_address_order(hosts)[i]).key.rank() <= (
            #[trigger] in_address_order(hosts)[j]).key.rank(),
        forall|h: HostView| #[trigger] in_address_order(hosts).contains(h) <==> hosts.contains(h),
        in_address_order(hosts).len() == hosts.len(),
    decreases hosts.len(),
{
    if hosts.len() > 0 {
        let front = hosts.drop_last();
        let last = hosts.last();
        let inner = in_address_order(front);
        law_address_order_sorts(front);
        lemma_placed_keeps_order(inner, last);
        lemma_placed_len(inner, last);
        let out = in_address_order(hosts);
        assert forall|h: HostView| #[trigger] out.contains(h) <==> hosts.contains(h) by {
            if out.contains(h) {
                let i = out.index_of(h);
                if out[i] == last {
                    assert(hosts[hosts.len() - 1] == h);
                } else {
                    assert(inner.contains(h));
                    assert(front.contains(h));
                    let j = front.index_of(h);
                    assert(hosts[j] == h);
                }
            }
            if hosts.contains(h) {
                let j = hosts.index_of(h);
                if j < front.len() {
                    assert(front[j] == h);
                    assert(inner.contains(h));
                }
            }
        }
    } else {
        assert forall|h: HostView| #[trigger] in_address_order(hosts).contains(h)
            <==> hosts.contains(h) by {}
    }
}

proof fn lemma_placed_len(list: Seq<HostView>, host: HostView)
    ensures
        placed(list, host).len() == list.len() + 1,
    decreases list.len(),
{
    if list.len() > 0 && host.key.rank() < list.last().key.rank() {
        lemma_placed_len(list.drop_last(), host);
    }
}

/// No two neighbours of a ranking share their text.
pub proof fn law_ranking_has_no_repeats(hosts: Seq<HostView>, i: int)
    requires
        0 <= i,
        i + 1 < without_repeats(hosts).len(),
    ensures
        without_repeats(hosts)[i].text != without_repeats(hosts)[i + 1].text,
    decreases hosts.len(),
{
    let front = hosts.drop_last();
    let before = without_repeats(front);
    if i + 1 < before.len() {
        law_ranking_has_no_repeats(front, i);
    }
}

/// Hosts whose order follows from their text and tells any two texts apart, as
/// it does of addresses in their canonical text.
pub open spec fn consistent(hosts: Seq<HostView>) -> bool {
    forall|i: int, j: int|
        0 <= i < hosts.len() && 0 <= j < hosts.len() ==> ((#[trigger] hosts[i]).key.rank() == (
        #[trigger] hosts[j]).key.rank() <==> hosts[i] == hosts[j]) && (hosts[i].text
            == hosts[j].text <==> hosts[i] == hosts[j])
}

/// Each host comes strictly before the next.
pub open spec fn rises(hosts: Seq<HostView>) -> bool {
    forall|i: int, j: int|
        0 <= i < j < hosts.len() ==> (#[trigger] hosts[i]).key.rank() < (
        #[trigger] hosts[j]).key.rank()
}

/// Two lists hold the same hosts, in any order and however often.
pub open spec fn same_hosts(a: Seq<HostView>, b: Seq<HostView>) -> bool {
    forall|h: HostView| #![trigger a.contains(h)] #![trigger b.contains(h)]
        a.contains(h) <==> b.contains(h)
}

proof fn lemma_without_repeats(hosts: Seq<HostView>)
    requires
        consistent(hosts),
        forall|i: int, j: int|
            0 <= i <= j < hosts.len() ==> (#[trigger] hosts[i]).key.rank() <= (
            #[trigger] hosts[j]).key.rank(),
    ensures
        rises(without_repeats(hosts)),
        same_hosts(without_repeats(hosts), hosts),
        hosts.len() > 0 ==> without_repeats(hosts).len() > 0 && without_repeats(hosts).last()
            == hosts.last(),
    decreases hosts.len(),
{
    let out = without_repeats(hosts);
    if hosts.len() > 0 {
        let front = hosts.drop_last();
        let last = hosts.last();
        let before = without_repeats(front);
        assert forall|i: int, j: int|
            0 <= i < front.len() && 0 <= j < front.len() implies ((#[trigger] front[i]).key.rank()
            == (#[trigger] front[j]).key.rank() <==> front[i] == front[j]) && (front[i].text
            == front[j].text <==> front[i] == front[j]) by {
            assert(hosts[i] == front[i] && hosts[j] == front[j]);
        }
        assert forall|i: int, j: int| 0 <= i <= j < front.len() implies (
        #[trigger] front[i]).key.rank() <= (#[trigger] front[j]).key.rank() by {
            assert(hosts[i] == front[i] && hosts[j] == front[j]);
        }
        lemma_without_repeats(front);
        let end = hosts.len() - 1;
        assert(hosts[end] == last);
        if front.len() > 0 {
            assert(hosts[end - 1] == front.last());
            assert(before.last() == hosts[end - 1]);
            assert(hosts[end - 1].key.rank() <= hosts[end].key.rank());
        } else {
            assert(before =~= Seq::<HostView>::empty());
        }
        assert forall|i: int, j: int| 0 <= i < j < out.len() implies (
        #[trigger] out[i]).key.rank() < (#[trigger] out[j]).key.rank() by {
            if j < before.len() {
                assert(before[i].key.rank() < before[j].key.rank());
            } else {
                assert(out[j] == last);
                assert(before.last() == before[before.len() - 1]);
                if i < before.len() - 1 {
                    assert(before[i].key.rank() < before[before.len() - 1].key.rank());
                }
            }
        }
        assert forall|h: HostView| #[trigger] out.contains(h) <==> hosts.contains(h) by {
            if out.contains(h) {
                let i = out.index_of(h);
                if i < before.len() {
                    assert(before[i] == h);
                    assert(before.contains(h));
                    assert(front.contains(h));
                    let j = front.index_of(h);
                    assert(hosts[j] == h);
                }
            }
            if hosts.contains(h) {
                let j = hosts.index_of(h);
                if j < front.len() {
                    assert(front[j] == h);
                    assert(before.contains(h));
                    let i = before.index_of(h);
                    assert(out[i] == h);
                } else {
                    assert(out[out.len() - 1] == h);
                }
            }
        }
    } else {
        assert(out =~= hosts);
    }
}

/// Two rising lists of the same hosts are one list.
proof fn lemma_rising_lists_agree(a: Seq<HostView>, b: Seq<HostView>)
    requires
        rises(a),
        rises(b),
        same_hosts(a, b),
    ensures
        a == b,
    decreases a.len(),
{
    if a.len() == 0 {
        if b.len() > 0 {
            assert(b.contains(b[0]));
            assert(a.contains(b[0]));
        }
        assert(a =~= b);
    } else {
        assert(a.contains(a[a.len() - 1]));
        assert(b.contains(a.last()));
        let i = b.index_of(a.last());
        assert(b.contains(b[b.len() - 1]));
        assert(a.contains(b.last()));
        let j = a.index_of(b.last());
        if i < b.len() - 1 {
            assert(b[i].key.rank() < b[b.len() - 1].key.rank());
            if j < a.len() - 1 {
                assert(a[j].key.rank() < a[a.len() - 1].key.rank());
            }
        }
        assert(a.last() == b.last());
        let af = a.drop_last();
        let bf = b.drop_last();
        assert forall|h: HostView| #[trigger] af.contains(h) <==> bf.contains(h) by {
            if af.contains(h) {
                let k = af.index_of(h);
                assert(a[k] == h && a[k].key.rank() < a[a.len() - 1].key.rank());
                assert(a.contains(h));
                let m = b.index_of(h);
                assert(bf[m] == h);
            }
            if bf.contains(h) {
                let k = bf.index_of(h);
                assert(b[k] == h && b[k].key.rank() < b[b.len() - 1].key.rank());
                assert(b.contains(h));
                let m = a.index_of(h);
                assert(af[m] == h);
            }
        }
        lemma_rising_lists_agree(af, bf);
        assert(a =~= af.push(a.last()));
        assert(b =~= bf.push(b.last()));
    }
}

/// A ranking is by address, each host strictly before the next, and holds
/// exactly the hosts of the group: none is added, none is lost, none stands
/// twice.
pub proof fn law_ranking_holds_the_group(hosts: Seq<HostView>)
    requires
        consistent(hosts),
    ensures
        rises(ranked(hosts)),
        same_hosts(ranked(hosts), hosts),
{
    law_address_order_sorts(hosts);
    let sorted = in_address_order(hosts);
    assert forall|i: int, j: int| 0 <= i < sorted.len() && 0 <= j < sorted.len() implies ((
    #[trigger] sorted[i]).key.rank() == (#[trigger] sorted[j]).key.rank() <==> sorted[i]
        == sorted[j]) && (sorted[i].text == sorted[j].text <==> sorted[i] == sorted[j]) by {
        assert(sorted.contains(sorted[i]) && sorted.contains(sorted[j]));
        let a = hosts.index_of(sorted[i]);
        let b = hosts.index_of(sorted[j]);
        assert(hosts[a] == sorted[i] && hosts[b] == sorted[j]);
    }
    lemma_without_repeats(sorted);
}

/// Every process derives the same ranking: in whatever order a group's hosts
/// are listed, and however often each is.
pub proof fn law_ranking_ignores_listing(a: Seq<HostView>, b: Seq<HostView>)
    requires
        consistent(a),
        same_hosts(a, b),
    ensures
        ranked(a) == ranked(b),
{
    assert forall|i: int, j: int| 0 <= i < b.len() && 0 <= j < b.len() implies ((
    #[trigger] b[i]).key.rank() == (#[trigger] b[j]).key.rank() <==> b[i] == b[j]) && (b[i].text
        == b[j].text <==> b[i] == b[j]) by {
        assert(b.contains(b[i]) && b.contains(b[j]));
        let m = a.index_of(b[i]);
        let n = a.index_of(b[j]);
        assert(a[m] == b[i] && a[n] == b[j]);
    }
    law_ranking_holds_the_group(a);
    law_ranking_holds_the_group(b);
    lemma_rising_lists_agree(ranked(a), ranked(b));
}

/// A group that drew nothing plays no role: without matchmakers the deployment
/// is the plain one.
pub proof fn law_empty_group_is_plain(ip: Seq<char>)
    ensures
        ranked(Seq::<HostView>::empty()).len() == 0,
        rank_of(ranked(Seq::<HostView>::empty()), ip) is None,
{
}

/// A process plays the part of its place in its group's ranking: the first place
/// that holds its address, among the acceptors before the matchmakers. An address
/// in neither plays none.
pub proof fn law_role_is_the_place_in_the_ranking(d: DeploymentView, ip: Seq<char>)
    requires
        d.acceptors.len() <= u64::MAX,
        d.matchmakers.len() <= u64::MAX,
    ensures
        match d.role(ip) {
            Some(Role::Acceptor(rank)) => {
                &&& rank < d.acceptors.len()
                &&& d.acceptors[rank as int].text == ip
                &&& forall|i: int| 0 <= i < rank ==> (#[trigger] d.acceptors[i]).text != ip
            },
            Some(Role::Matchmaker(id)) => {
                &&& id < d.matchmakers.len()
                &&& d.matchmakers[id as int].text == ip
                &&& forall|i: int| 0 <= i < id ==> (#[trigger] d.matchmakers[i]).text != ip
                &&& forall|i: int|
                    0 <= i < d.acceptors.len() ==> (#[trigger] d.acceptors[i]).text != ip
            },
            None => {
                &&& forall|i: int|
                    0 <= i < d.acceptors.len() ==> (#[trigger] d.acceptors[i]).text != ip
                &&& forall|i: int|
                    0 <= i < d.matchmakers.len() ==> (#[trigger] d.matchmakers[i]).text != ip
            },
        },
{
    lemma_first_place(d.acceptors, ip);
    lemma_first_place(d.matchmakers, ip);
}

proof fn lemma_first_place(hosts: Seq<HostView>, ip: Seq<char>)
    ensures
        rank_of(hosts, ip) matches Some(rank) ==> 0 <= rank < hosts.len() && hosts[rank].text == ip
            && forall|j: int| 0 <= j < rank ==> (#[trigger] hosts[j]).text != ip,
{
    if exists|i: int| 0 <= i < hosts.len() && (#[trigger] hosts[i]).text == ip {
        let i = choose|i: int| 0 <= i < hosts.len() && (#[trigger] hosts[i]).text == ip;
        lemma_lowest_place(hosts, ip, i);
    }
}

proof fn lemma_lowest_place(hosts: Seq<HostView>, ip: Seq<char>, i: int)
    requires
        0 <= i < hosts.len(),
        hosts[i].text == ip,
    ensures
        exists|k: int|
            0 <= k < hosts.len() && (#[trigger] hosts[k]).text == ip && forall|j: int|
                0 <= j < k ==> (#[trigger] hosts[j]).text != ip,
    decreases i,
{
    if exists|j: int| 0 <= j < i && (#[trigger] hosts[j]).text == ip {
        let j = choose|j: int| 0 <= j < i && (#[trigger] hosts[j]).text == ip;
        lemma_lowest_place(hosts, ip, j);
    } else {
        assert(hosts[i].text == ip);
    }
}

} // verus!
