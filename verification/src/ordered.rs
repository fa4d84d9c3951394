//! Ordered maps and sets: the harness walks every collection in key order, so
//! a run is a function of its seed alone.
//!
//! Both keep their entries in one ascending vector. The order is a type
//! invariant, so clients only ever see the mathematical view: a `Map` or a
//! `Set`, and [`ascending`] for the order in which it is walked.
use vstd::prelude::*;

verus! {

/// A key with a total order, given by an integer rank no two keys share.
pub trait MapKey: Copy + Sized {
    /// Where this key stands in the order.
    spec fn rank(self) -> int;

    /// Two keys of the same rank are the same key.
    proof fn rank_is_injective(a: Self, b: Self)
        ensures
            a.rank() == b.rank() ==> a == b,
    ;

    /// Whether this key comes strictly before `other`.
    fn precedes(self, other: Self) -> (before: bool)
        ensures
            before == (self.rank() < other.rank()),
    ;
}

impl MapKey for u64 {
    open spec fn rank(self) -> int {
        self as int
    }

    proof fn rank_is_injective(a: Self, b: Self) {
    }

    fn precedes(self, other: Self) -> (before: bool) {
        self < other
    }
}

impl MapKey for u32 {
    open spec fn rank(self) -> int {
        self as int
    }

    proof fn rank_is_injective(a: Self, b: Self) {
    }

    fn precedes(self, other: Self) -> (before: bool) {
        self < other
    }
}

/// `list` names exactly the members of `keys`, each once, in ascending order.
pub open spec fn lists<K: MapKey>(list: Seq<K>, keys: Set<K>) -> bool {
    &&& forall|i: int, j: int|
        0 <= i < j < list.len() ==> #[trigger] list[i].rank() < #[trigger] list[j].rank()
    &&& forall|k: K| #[trigger] keys.contains(k) <==> list.contains(k)
}

/// The members of a finite set in ascending order.
pub open spec fn ascending<K: MapKey>(keys: Set<K>) -> Seq<K> {
    choose|list: Seq<K>| lists(list, keys)
}

proof fn lemma_lists_agree<K: MapKey>(a: Seq<K>, b: Seq<K>, keys: Set<K>)
    requires
        lists(a, keys),
        lists(b, keys),
    ensures
        a == b,
    decreases a.len(),
{
    if a.len() == 0 {
        if b.len() > 0 {
            assert(b.contains(b[0]));
            assert(keys.contains(b[0]));
            assert(false);
        }
        assert(a =~= b);
    } else {
        assert(a.contains(a.last()));
        assert(keys.contains(a.last()));
        assert(b.contains(a.last()));
        assert(b.contains(b.last()));
        assert(keys.contains(b.last()));
        assert(a.contains(b.last()));
        let i = a.index_of(b.last());
        let j = b.index_of(a.last());
        K::rank_is_injective(a.last(), b.last());
        assert(a.last() == b.last());
        let rest = keys.remove(a.last());
        lemma_lists_drop_last(a, keys);
        lemma_lists_drop_last(b, keys);
        lemma_lists_agree(a.drop_last(), b.drop_last(), rest);
        assert(a =~= a.drop_last().push(a.last()));
        assert(b =~= b.drop_last().push(b.last()));
    }
}

proof fn lemma_lists_drop_last<K: MapKey>(a: Seq<K>, keys: Set<K>)
    requires
        lists(a, keys),
        a.len() > 0,
    ensures
        lists(a.drop_last(), keys.remove(a.last())),
{
    let d = a.drop_last();
    let rest = keys.remove(a.last());
    assert forall|k: K| #[trigger] rest.contains(k) <==> d.contains(k) by {
        if rest.contains(k) {
            assert(a.contains(k));
            let i = a.index_of(k);
            assert(d[i] == k);
        }
        if d.contains(k) {
            let i = d.index_of(k);
            assert(a[i] == k);
            assert(a.contains(k));
            assert(a[i].rank() < a[a.len() - 1].rank());
        }
    }
}

/// The ascending order of a set is unique: any list of its members in
/// ascending order is it.
pub proof fn lemma_ascending_of<K: MapKey>(list: Seq<K>, keys: Set<K>)
    requires
        lists(list, keys),
    ensures
        ascending(keys) == list,
{
    lemma_lists_agree(ascending(keys), list, keys);
}

proof fn lemma_greatest<K: MapKey>(keys: Set<K>) -> (greatest: K)
    requires
        keys.finite(),
        keys.len() > 0,
    ensures
        keys.contains(greatest),
        forall|k: K| #[trigger] keys.contains(k) ==> k.rank() <= greatest.rank(),
    decreases keys.len(),
{
    let one = keys.choose();
    let rest = keys.remove(one);
    if rest.len() == 0 {
        assert forall|k: K| #[trigger] keys.contains(k) implies k.rank() <= one.rank() by {
            if k != one {
                assert(rest.contains(k));
            }
        }
        one
    } else {
        let other = lemma_greatest(rest);
        let greatest = if other.rank() < one.rank() {
            one
        } else {
            other
        };
        assert forall|k: K| #[trigger] keys.contains(k) implies k.rank() <= greatest.rank() by {
            if k != one {
                assert(rest.contains(k));
            }
        }
        greatest
    }
}

/// A finite set has an ascending order.
pub proof fn lemma_ascending_lists<K: MapKey>(keys: Set<K>)
    requires
        keys.finite(),
    ensures
        lists(ascending(keys), keys),
        ascending(keys).len() == keys.len(),
    decreases keys.len(),
{
    if keys.len() == 0 {
        let none = Seq::<K>::empty();
        assert(keys =~= Set::<K>::empty());
        assert(lists(none, keys));
        lemma_ascending_of(none, keys);
    } else {
        let last = lemma_greatest(keys);
        let rest = keys.remove(last);
        lemma_ascending_lists(rest);
        let front = ascending(rest);
        let list = front.push(last);
        assert forall|i: int, j: int| 0 <= i < j < list.len() implies #[trigger] list[i].rank()
            < #[trigger] list[j].rank() by {
            if j == front.len() {
                assert(front.contains(front[i]));
                assert(rest.contains(front[i]));
                K::rank_is_injective(front[i], last);
            }
        }
        assert forall|k: K| #[trigger] keys.contains(k) <==> list.contains(k) by {
            if keys.contains(k) {
                if k == last {
                    assert(list[front.len() as int] == k);
                } else {
                    assert(rest.contains(k));
                    let j = front.index_of(k);
                    assert(list[j] == k);
                }
            }
            if list.contains(k) {
                let j = list.index_of(k);
                if j < front.len() {
                    assert(front.contains(front[j]));
                    assert(rest.contains(k));
                }
            }
        }
        lemma_ascending_of(list, keys);
    }
}

/// Picking members out of an ascending list lists the members picked.
pub proof fn lemma_lists_filter<K: MapKey>(
    list: Seq<K>,
    keys: Set<K>,
    pred: spec_fn(K) -> bool,
)
    requires
        lists(list, keys),
    ensures
        lists(list.filter(pred), keys.filter(pred)),
        ascending(keys.filter(pred)) == list.filter(pred),
    decreases list.len(),
{
    reveal(Seq::filter);
    let picked = list.filter(pred);
    if list.len() > 0 {
        let last = list.last();
        let front = list.drop_last();
        let rest = keys.remove(last);
        lemma_lists_drop_last(list, keys);
        lemma_lists_filter(front, rest, pred);
        let before = front.filter(pred);
        assert(list.contains(last));
        assert(keys.contains(last));
        assert forall|i: int| 0 <= i < before.len() implies #[trigger] before[i].rank()
            < last.rank() by {
            assert(before.contains(before[i]));
            assert(rest.filter(pred).contains(before[i]));
            assert(front.contains(before[i]));
            let j = front.index_of(before[i]);
            assert(list[j].rank() < list[list.len() - 1].rank());
        }
        if pred(last) {
            assert(picked == before.push(last));
            assert forall|k: K| #[trigger] keys.filter(pred).contains(k) <==> picked.contains(
                k,
            ) by {
                assert(rest.filter(pred).contains(k) <==> before.contains(k));
                if before.contains(k) {
                    let j = before.index_of(k);
                    assert(picked[j] == k);
                }
                if k == last {
                    assert(picked[before.len() as int] == k);
                }
                if picked.contains(k) && k != last {
                    let j = picked.index_of(k);
                    assert(before[j] == k);
                }
            }
        } else {
            assert(keys.filter(pred) =~= rest.filter(pred));
        }
    } else {
        assert forall|k: K| #[trigger] keys.filter(pred).contains(k) <==> picked.contains(k) by {
            if keys.contains(k) {
                assert(list.contains(k));
            }
        }
    }
    lemma_ascending_of(picked, keys.filter(pred));
}

/// The first `n` members of a set in ascending order.
pub closed spec fn walked<K: MapKey>(keys: Set<K>, n: int) -> Set<K> {
    Set::new(|k: K| exists|j: int| 0 <= j < n && #[trigger] ascending(keys)[j] == k)
}

/// Walking a set in ascending order visits each member once: none at first,
/// one more at each step, all of them at the end.
pub proof fn lemma_walk<K: MapKey>(keys: Set<K>, n: int)
    requires
        lists(ascending(keys), keys),
        0 <= n <= ascending(keys).len(),
    ensures
        walked(keys, 0) == Set::<K>::empty(),
        n < ascending(keys).len() ==> walked(keys, n + 1) == walked(keys, n).insert(
            ascending(keys)[n],
        ) && !walked(keys, n).contains(ascending(keys)[n]) && keys.contains(ascending(keys)[n]),
        n == ascending(keys).len() ==> walked(keys, n) == keys,
        walked(keys, n).subset_of(keys),
{
    let list = ascending(keys);
    assert(walked(keys, 0) =~= Set::<K>::empty());
    assert forall|k: K| walked(keys, n).contains(k) implies keys.contains(k) by {
        let j = choose|j: int| 0 <= j < n && #[trigger] list[j] == k;
        assert(list.contains(k));
    }
    if n < list.len() {
        let last = list[n];
        assert(list.contains(last));
        assert forall|k: K| walked(keys, n + 1).contains(k) <==> walked(keys, n).insert(
            last,
        ).contains(k) by {
            if walked(keys, n + 1).contains(k) {
                let j = choose|j: int| 0 <= j < n + 1 && #[trigger] list[j] == k;
                if j < n {
                    assert(walked(keys, n).contains(k));
                }
            }
            if k == last {
                assert(list[n] == k);
            }
        }
        assert(walked(keys, n + 1) =~= walked(keys, n).insert(last));
        if walked(keys, n).contains(last) {
            let j = choose|j: int| 0 <= j < n && #[trigger] list[j] == last;
            assert(list[j].rank() < list[n].rank());
        }
    } else {
        assert forall|k: K| keys.contains(k) implies walked(keys, n).contains(k) by {
            assert(list.contains(k));
            let j = list.index_of(k);
            assert(list[j] == k);
        }
        assert(walked(keys, n) =~= keys);
    }
}

/// A map kept in ascending key order.
pub struct OrdMap<K: MapKey, V: View> {
    entries: Vec<(K, V)>,
}

spec fn key_list<K: MapKey, V: View>(entries: Seq<(K, V)>) -> Seq<K> {
    entries.map_values(|e: (K, V)| e.0)
}

spec fn ascends<K: MapKey, V: View>(entries: Seq<(K, V)>) -> bool {
    forall|i: int, j: int|
        0 <= i < j < entries.len() ==> #[trigger] entries[i].0.rank() < #[trigger] entries[j].0.rank()
}

spec fn holds<K: MapKey, V: View>(entries: Seq<(K, V)>, k: K) -> bool {
    exists|i: int| 0 <= i < entries.len() && (#[trigger] entries[i]).0 == k
}

spec fn entry_of<K: MapKey, V: View>(entries: Seq<(K, V)>, k: K) -> int {
    choose|i: int| 0 <= i < entries.len() && (#[trigger] entries[i]).0 == k
}

spec fn as_map<K: MapKey, V: View>(entries: Seq<(K, V)>) -> Map<K, V::V> {
    Map::new(|k: K| holds(entries, k), |k: K| entries[entry_of(entries, k)].1@)
}

proof fn lemma_entry<K: MapKey, V: View>(entries: Seq<(K, V)>, i: int)
    requires
        ascends(entries),
        0 <= i < entries.len(),
    ensures
        holds(entries, entries[i].0),
        entry_of(entries, entries[i].0) == i,
        as_map(entries).contains_key(entries[i].0),
        as_map(entries)[entries[i].0] == entries[i].1@,
{
    let j = entry_of(entries, entries[i].0);
    assert(entries[j].0 == entries[i].0);
    if j < i {
        assert(entries[j].0.rank() < entries[i].0.rank());
    }
    if i < j {
        assert(entries[i].0.rank() < entries[j].0.rank());
    }
}

proof fn lemma_key_list<K: MapKey, V: View>(entries: Seq<(K, V)>)
    requires
        ascends(entries),
    ensures
        lists(key_list(entries), as_map(entries).dom()),
        ascending(as_map(entries).dom()) == key_list(entries),
        key_list(entries).no_duplicates(),
        as_map(entries).dom() == key_list(entries).to_set(),
        as_map(entries).dom().finite(),
        as_map(entries).dom().len() == entries.len(),
{
    let keys = key_list(entries);
    let dom = as_map(entries).dom();
    assert forall|k: K| #[trigger] dom.contains(k) <==> keys.contains(k) by {
        if dom.contains(k) {
            let i = entry_of(entries, k);
            assert(keys[i] == k);
        }
        if keys.contains(k) {
            let i = keys.index_of(k);
            assert(entries[i].0 == k);
        }
    }
    assert forall|i: int, j: int| 0 <= i < j < keys.len() implies #[trigger] keys[i].rank()
        < #[trigger] keys[j].rank() by {
        assert(entries[i].0.rank() < entries[j].0.rank());
    }
    lemma_ascending_of(keys, dom);
    assert(keys.no_duplicates()) by {
        assert forall|i: int, j: int| 0 <= i < keys.len() && 0 <= j < keys.len() && i
            != j implies keys[i] != keys[j] by {
            if i < j {
                assert(keys[i].rank() < keys[j].rank());
            } else {
                assert(keys[j].rank() < keys[i].rank());
            }
        }
    }
    assert(dom =~= keys.to_set());
    keys.unique_seq_to_set();
}

impl<K: MapKey, V: View> View for OrdMap<K, V> {
    type V = Map<K, V::V>;

    closed spec fn view(&self) -> Map<K, V::V> {
        as_map(self.entries@)
    }
}

impl<K: MapKey, V: View> OrdMap<K, V> {
    #[verifier::type_invariant]
    spec fn inv(self) -> bool {
        ascends(self.entries@)
    }

    /// The empty map.
    pub fn new() -> (map: Self)
        ensures
            map@ == Map::<K, V::V>::empty(),
    {
        let map = OrdMap { entries: Vec::new() };
        assert(map@ =~= Map::<K, V::V>::empty());
        map
    }

    /// How many keys the map holds.
    pub fn len(&self) -> (n: usize)
        ensures
            n == self@.dom().len(),
            self@.dom().finite(),
            n == ascending(self@.dom()).len(),
            lists(ascending(self@.dom()), self@.dom()),
    {
        proof {
            use_type_invariant(self);
            lemma_key_list(self.entries@);
        }
        self.entries.len()
    }

    pub fn is_empty(&self) -> (empty: bool)
        ensures
            empty == (self@ == Map::<K, V::V>::empty()),
            empty == (self@.dom().len() == 0),
            self@.dom().finite(),
    {
        proof {
            use_type_invariant(self);
            lemma_key_list(self.entries@);
            if self.entries.len() == 0 {
                assert(self@ =~= Map::<K, V::V>::empty());
            } else {
                lemma_entry(self.entries@, 0);
            }
        }
        self.entries.len() == 0
    }

    /// The `i`-th key in ascending order.
    pub fn key_at(&self, i: usize) -> (k: K)
        requires
            i < self@.dom().len(),
        ensures
            k == ascending(self@.dom())[i as int],
            self@.contains_key(k),
    {
        proof {
            use_type_invariant(self);
            lemma_key_list(self.entries@);
            lemma_entry(self.entries@, i as int);
        }
        self.entries[i].0
    }

    /// The value under the `i`-th key in ascending order.
    pub fn value_at(&self, i: usize) -> (v: &V)
        requires
            i < self@.dom().len(),
        ensures
            v@ == self@[ascending(self@.dom())[i as int]],
            self@.contains_key(ascending(self@.dom())[i as int]),
    {
        proof {
            use_type_invariant(self);
            lemma_key_list(self.entries@);
            lemma_entry(self.entries@, i as int);
        }
        &self.entries[i].1
    }

    /// The position at which `k` stands, or would stand.
    fn position(&self, k: K) -> (at: usize)
        ensures
            at <= self.entries@.len(),
            ascends(self.entries@),
            forall|i: int| 0 <= i < at ==> (#[trigger] self.entries@[i]).0.rank() < k.rank(),
            forall|i: int|
                at <= i < self.entries@.len() ==> (#[trigger] self.entries@[i]).0.rank()
                    >= k.rank(),
    {
        proof {
            use_type_invariant(self);
        }
        let mut at: usize = 0;
        while at < self.entries.len() && self.entries[at].0.precedes(k)
            invariant
                at <= self.entries@.len(),
                ascends(self.entries@),
                forall|i: int| 0 <= i < at ==> (#[trigger] self.entries@[i]).0.rank() < k.rank(),
            decreases self.entries@.len() - at,
        {
            at = at + 1;
        }
        at
    }

    /// The value under `k`.
    pub fn get(&self, k: K) -> (found: Option<&V>)
        ensures
            match found {
                Some(v) => self@.contains_key(k) && v@ == self@[k],
                None => !self@.contains_key(k),
            },
    {
        let at = self.position(k);
        if at < self.entries.len() && !k.precedes(self.entries[at].0) {
            proof {
                K::rank_is_injective(k, self.entries@[at as int].0);
                lemma_entry(self.entries@, at as int);
            }
            Some(&self.entries[at].1)
        } else {
            None
        }
    }

    pub fn contains(&self, k: K) -> (held: bool)
        ensures
            held == self@.contains_key(k),
    {
        self.get(k).is_some()
    }

    /// Put `v` under `k`, handing back what stood there.
    pub fn insert(&mut self, k: K, v: V) -> (previous: Option<V>)
        ensures
            final(self)@ == old(self)@.insert(k, v@),
            match previous {
                Some(was) => old(self)@.contains_key(k) && was@ == old(self)@[k],
                None => !old(self)@.contains_key(k),
            },
    {
        let at = self.position(k);
        let ghost before = self.entries@;
        let mut entries: Vec<(K, V)> = Vec::new();
        std::mem::swap(&mut entries, &mut self.entries);
        let present = at < entries.len() && !k.precedes(entries[at].0);
        let previous = if present {
            proof {
                K::rank_is_injective(k, before[at as int].0);
                lemma_entry(before, at as int);
            }
            let was = entries.remove(at);
            Some(was.1)
        } else {
            None
        };
        entries.insert(at, (k, v));
        proof {
            let after = entries@;
            assert(after[at as int] == (k, v));
            assert(ascends(after)) by {
                assert forall|i: int, j: int| 0 <= i < j < after.len() implies
                    #[trigger] after[i].0.rank() < #[trigger] after[j].0.rank() by {
                    let bi = if i < at || present { i } else { i - 1 };
                    let bj = if j < at || present { j } else { j - 1 };
                    if i == at {
                        assert(after[j] == before[bj]);
                        if !present {
                            assert(before[bj].0.rank() >= before[at as int].0.rank());
                        } else {
                            assert(before[at as int].0.rank() < before[bj].0.rank());
                        }
                    } else if j == at {
                        assert(after[i] == before[bi]);
                    } else {
                        assert(after[i] == before[bi]);
                        assert(after[j] == before[bj]);
                    }
                }
            }
            lemma_entry(after, at as int);
            assert forall|x: K| x != k implies (#[trigger] as_map(after).contains_key(x)
                <==> as_map(before).contains_key(x)) && (as_map(before).contains_key(x)
                ==> as_map(after)[x] == as_map(before)[x]) by {
                if as_map(before).contains_key(x) {
                    let i = entry_of(before, x);
                    let ai = if i < at || present { i } else { i + 1 };
                    assert(after[ai] == before[i]);
                    lemma_entry(after, ai);
                    lemma_entry(before, i);
                }
                if as_map(after).contains_key(x) {
                    let i = entry_of(after, x);
                    assert(after[i].0 == x);
                    let bi = if i < at || present { i } else { i - 1 };
                    assert(i != at);
                    assert(after[i] == before[bi]);
                    lemma_entry(before, bi);
                }
            }
            assert(as_map(after) =~= as_map(before).insert(k, v@));
            if previous.is_none() {
                if as_map(before).contains_key(k) {
                    let i = entry_of(before, k);
                    assert(before[i].0 == k);
                    if i > at {
                        assert(before[at as int].0.rank() < before[i].0.rank());
                    }
                    assert(false);
                }
            }
        }
        self.entries = entries;
        previous
    }

    /// Take `k` out, handing back its value.
    pub fn remove(&mut self, k: K) -> (removed: Option<V>)
        ensures
            final(self)@ == old(self)@.remove(k),
            match removed {
                Some(was) => old(self)@.contains_key(k) && was@ == old(self)@[k],
                None => !old(self)@.contains_key(k),
            },
    {
        let at = self.position(k);
        let ghost before = self.entries@;
        if at < self.entries.len() && !k.precedes(self.entries[at].0) {
            let mut entries: Vec<(K, V)> = Vec::new();
            std::mem::swap(&mut entries, &mut self.entries);
            proof {
                K::rank_is_injective(k, before[at as int].0);
                lemma_entry(before, at as int);
            }
            let was = entries.remove(at);
            proof {
                let after = entries@;
                assert(ascends(after)) by {
                    assert forall|i: int, j: int| 0 <= i < j < after.len() implies
                        #[trigger] after[i].0.rank() < #[trigger] after[j].0.rank() by {
                        let bi = if i < at { i } else { i + 1 };
                        let bj = if j < at { j } else { j + 1 };
                        assert(after[i] == before[bi]);
                        assert(after[j] == before[bj]);
                        assert(before[bi].0.rank() < before[bj].0.rank());
                    }
                }
                assert forall|x: K| x != k implies (#[trigger] as_map(after).contains_key(x)
                    <==> as_map(before).contains_key(x)) && (as_map(before).contains_key(x)
                    ==> as_map(after)[x] == as_map(before)[x]) by {
                    if as_map(before).contains_key(x) {
                        let i = entry_of(before, x);
                        let ai = if i < at { i } else { i - 1 };
                        assert(after[ai] == before[i]);
                        lemma_entry(after, ai);
                        lemma_entry(before, i);
                    }
                    if as_map(after).contains_key(x) {
                        let i = entry_of(after, x);
                        let bi = if i < at { i } else { i + 1 };
                        assert(after[i] == before[bi]);
                        lemma_entry(before, bi);
                    }
                }
                if as_map(after).contains_key(k) {
                    let i = entry_of(after, k);
                    let bi = if i < at { i } else { i + 1 };
                    assert(after[i] == before[bi]);
                    if bi > at {
                        assert(before[at as int].0.rank() < before[bi].0.rank());
                    }
                    assert(false);
                }
                assert(as_map(after) =~= as_map(before).remove(k));
            }
            self.entries = entries;
            Some(was.1)
        } else {
            proof {
                if as_map(before).contains_key(k) {
                    let i = entry_of(before, k);
                    assert(before[i].0 == k);
                    if i > at {
                        assert(before[at as int].0.rank() < before[i].0.rank());
                    }
                    assert(false);
                }
                assert(self@ =~= old(self)@.remove(k));
            }
            None
        }
    }

    /// Drop every key that comes before `floor`.
    pub fn retain_from(&mut self, floor: K)
        ensures
            final(self)@ == old(self)@.restrict(
                Set::new(|k: K| k.rank() >= floor.rank()),
            ),
    {
        let at = self.position(floor);
        let ghost before = self.entries@;
        let mut entries: Vec<(K, V)> = Vec::new();
        std::mem::swap(&mut entries, &mut self.entries);
        let kept = entries.split_off(at);
        proof {
            let after = kept@;
            assert forall|i: int| 0 <= i < after.len() implies #[trigger] after[i] == before[at
                + i] by {}
            assert(ascends(after)) by {
                assert forall|i: int, j: int| 0 <= i < j < after.len() implies
                    #[trigger] after[i].0.rank() < #[trigger] after[j].0.rank() by {
                    assert(before[at + i].0.rank() < before[at + j].0.rank());
                }
            }
            let upper = Set::new(|k: K| k.rank() >= floor.rank());
            assert forall|x: K| (#[trigger] as_map(after).contains_key(x) <==> as_map(
                before,
            ).contains_key(x) && upper.contains(x)) && (as_map(after).contains_key(x)
                ==> as_map(after)[x] == as_map(before)[x]) by {
                if as_map(after).contains_key(x) {
                    let i = entry_of(after, x);
                    assert(after[i] == before[at + i]);
                    lemma_entry(before, at + i);
                    lemma_entry(after, i);
                }
                if as_map(before).contains_key(x) && upper.contains(x) {
                    let i = entry_of(before, x);
                    assert(before[i].0 == x);
                    assert(i >= at);
                    assert(after[i - at] == before[i]);
                    lemma_entry(after, i - at);
                }
            }
            assert(as_map(after) =~= as_map(before).restrict(upper));
        }
        self.entries = kept;
    }

    /// The greatest key.
    pub fn last_key(&self) -> (last: Option<K>)
        ensures
            match last {
                Some(k) => self@.contains_key(k) && forall|x: K|
                    #[trigger] self@.contains_key(x) ==> x.rank() <= k.rank(),
                None => self@ == Map::<K, V::V>::empty(),
            },
    {
        proof {
            use_type_invariant(self);
        }
        let n = self.entries.len();
        if n == 0 {
            assert(self@ =~= Map::<K, V::V>::empty());
            None
        } else {
            proof {
                lemma_entry(self.entries@, n - 1);
                assert forall|x: K| #[trigger] self@.contains_key(x) implies x.rank()
                    <= self.entries@[n - 1].0.rank() by {
                    let i = entry_of(self.entries@, x);
                    assert(self.entries@[i].0 == x);
                }
            }
            Some(self.entries[n - 1].0)
        }
    }
}

/// A set kept in ascending order.
pub struct OrdSet<K: MapKey> {
    members: OrdMap<K, ()>,
}

impl<K: MapKey> View for OrdSet<K> {
    type V = Set<K>;

    closed spec fn view(&self) -> Set<K> {
        self.members@.dom()
    }
}

impl<K: MapKey> OrdSet<K> {
    /// The empty set.
    pub fn new() -> (set: Self)
        ensures
            set@ == Set::<K>::empty(),
    {
        let set = OrdSet { members: OrdMap::new() };
        assert(set@ =~= Set::<K>::empty());
        set
    }

    pub fn len(&self) -> (n: usize)
        ensures
            n == self@.len(),
            self@.finite(),
            n == ascending(self@).len(),
            lists(ascending(self@), self@),
    {
        self.members.len()
    }

    pub fn is_empty(&self) -> (empty: bool)
        ensures
            empty == (self@ == Set::<K>::empty()),
            empty == (self@.len() == 0),
            self@.finite(),
    {
        let empty = self.members.is_empty();
        proof {
            if empty {
                assert(self@ =~= Set::<K>::empty());
            }
        }
        empty
    }

    /// The `i`-th member in ascending order.
    pub fn at(&self, i: usize) -> (k: K)
        requires
            i < self@.len(),
        ensures
            k == ascending(self@)[i as int],
            self@.contains(k),
    {
        self.members.key_at(i)
    }

    pub fn contains(&self, k: K) -> (held: bool)
        ensures
            held == self@.contains(k),
    {
        self.members.contains(k)
    }

    /// Add `k`; whether it was new.
    pub fn insert(&mut self, k: K) -> (added: bool)
        ensures
            final(self)@ == old(self)@.insert(k),
            added == !old(self)@.contains(k),
    {
        let previous = self.members.insert(k, ());
        assert(self@ =~= old(self)@.insert(k));
        previous.is_none()
    }

    /// Take `k` out; whether it was there.
    pub fn remove(&mut self, k: K) -> (removed: bool)
        ensures
            final(self)@ == old(self)@.remove(k),
            removed == old(self)@.contains(k),
    {
        let was = self.members.remove(k);
        assert(self@ =~= old(self)@.remove(k));
        was.is_some()
    }

    /// Drop every member that comes before `floor`.
    pub fn retain_from(&mut self, floor: K)
        ensures
            final(self)@ == old(self)@.filter(|k: K| k.rank() >= floor.rank()),
    {
        self.members.retain_from(floor);
        assert(self@ =~= old(self)@.filter(|k: K| k.rank() >= floor.rank()));
    }

    /// Add every member of `other`.
    pub fn extend(&mut self, other: &OrdSet<K>)
        ensures
            final(self)@ == old(self)@.union(other@),
    {
        let n = other.len();
        let mut i: usize = 0;
        proof {
            lemma_walk(other@, 0);
            assert(self@ =~= old(self)@.union(walked(other@, 0)));
        }
        while i < n
            invariant
                i <= n,
                n == other@.len(),
                n == ascending(other@).len(),
                lists(ascending(other@), other@),
                self@ == old(self)@.union(walked(other@, i as int)),
            decreases n - i,
        {
            proof {
                lemma_walk(other@, i as int);
            }
            self.insert(other.at(i));
            i = i + 1;
            assert(self@ =~= old(self)@.union(walked(other@, i as int)));
        }
        proof {
            lemma_walk(other@, n as int);
        }
    }

    /// A copy of this set.
    pub fn copied(&self) -> (set: Self)
        ensures
            set@ == self@,
    {
        let mut set = OrdSet::new();
        set.extend(self);
        assert(set@ =~= self@);
        set
    }
}

} // verus!
