//! A map whose entries are kept in the order of their keys.

use vstd::prelude::*;

use crate::order;

verus! {

/// What can be a key: something with a place in an order.
pub trait Key: View + Sized {
    /// Keys are ordered by their ranks.
    spec fn rank(key: Self::V) -> Seq<int>;

    /// Different keys have different ranks.
    proof fn lemma_rank_differs(a: Self::V, b: Self::V)
        ensures
            Self::rank(a) == Self::rank(b) ==> a == b,
    ;

    /// Whether this key comes before the other.
    fn comes_before(&self, other: &Self) -> (r: bool)
        ensures
            r == order::before(Self::rank(self@), Self::rank(other@)),
    ;

    /// Another copy of the key.
    fn duplicate(&self) -> (r: Self)
        ensures
            r@ == self@,
    ;
}

impl Key for String {
    open spec fn rank(key: Seq<char>) -> Seq<int> {
        order::text_rank(key)
    }

    proof fn lemma_rank_differs(a: Seq<char>, b: Seq<char>) {
        order::lemma_text_rank_differs(a, b);
    }

    fn comes_before(&self, other: &String) -> (r: bool) {
        order::text_before(self.as_str(), other.as_str())
    }

    fn duplicate(&self) -> (r: String) {
        self.clone()
    }
}

impl Key for bool {
    open spec fn rank(key: bool) -> Seq<int> {
        seq![if key { 1int } else { 0int }]
    }

    proof fn lemma_rank_differs(a: bool, b: bool) {
        assert(Self::rank(a)[0] == if a {
            1int
        } else {
            0int
        });
        assert(Self::rank(b)[0] == if b {
            1int
        } else {
            0int
        });
    }

    fn comes_before(&self, other: &bool) -> (r: bool) {
        reveal_with_fuel(order::before, 2);
        !*self && *other
    }

    fn duplicate(&self) -> (r: bool) {
        *self
    }
}

/// A map in the order of its keys.
#[derive(Debug)]
pub struct OrdMap<K: Key, V> {
    entries: Vec<(K, V)>,
}

/// The entries are in strictly ascending order.
pub open spec fn ascending<K: Key, V>(entries: Seq<(K, V)>) -> bool {
    forall|i: int, j: int|
        0 <= i < j < entries.len() ==> order::before(
            K::rank((#[trigger] entries[i]).0@),
            K::rank((#[trigger] entries[j]).0@),
        )
}

/// Entry `i` has the key `key`.
pub open spec fn key_stands_at<K: Key, V>(entries: Seq<(K, V)>, key: K::V, i: int) -> bool {
    0 <= i < entries.len() && entries[i].0@ == key
}

/// The very key `key` is held, not only one that is equal to it.
pub open spec fn holds<K: Key, V>(entries: Seq<(K, V)>, key: K) -> bool {
    exists|i: int| 0 <= i < entries.len() && (#[trigger] entries[i]).0 == key
}

/// Some entry has the key `key`.
pub open spec fn has_key<K: Key, V>(entries: Seq<(K, V)>, key: K::V) -> bool {
    exists|i: int| key_stands_at(entries, key, i)
}

/// The entries as a map.
pub open spec fn as_map<K: Key, V>(entries: Seq<(K, V)>) -> Map<K::V, V> {
    Map::new(
        |key: K::V| has_key(entries, key),
        |key: K::V| entries[choose|i: int| key_stands_at(entries, key, i)].1,
    )
}

impl<K: Key, V> View for OrdMap<K, V> {
    type V = Map<K::V, V>;

    closed spec fn view(&self) -> Map<K::V, V> {
        as_map(self.entries@)
    }
}

proof fn lemma_unique<K: Key, V>(entries: Seq<(K, V)>, i: int, j: int)
    requires
        ascending(entries),
        0 <= i < entries.len(),
        0 <= j < entries.len(),
        entries[i].0@ == entries[j].0@,
    ensures
        i == j,
{
    order::lemma_before_irreflexive(K::rank(entries[i].0@));
    if i < j {
        assert(order::before(K::rank(entries[i].0@), K::rank(entries[j].0@)));
    }
    if j < i {
        assert(order::before(K::rank(entries[j].0@), K::rank(entries[i].0@)));
    }
}

proof fn lemma_value_at<K: Key, V>(entries: Seq<(K, V)>, i: int)
    requires
        ascending(entries),
        0 <= i < entries.len(),
    ensures
        as_map(entries).dom().contains(entries[i].0@),
        as_map(entries)[entries[i].0@] == entries[i].1,
{
    let key = entries[i].0@;
    assert(key_stands_at(entries, key, i));
    let j = choose|j: int| key_stands_at(entries, key, j);
    lemma_unique(entries, i, j);
}

impl<K: Key, V> OrdMap<K, V> {
    /// The keys are in strictly ascending order.
    pub closed spec fn wf(&self) -> bool {
        ascending(self.entries@)
    }

    /// The entries in the order of the keys.
    pub closed spec fn entries(&self) -> Seq<(K, V)> {
        self.entries@
    }

    /// The keys in their order.
    pub open spec fn keys(&self) -> Seq<K::V> {
        self.entries().map_values(|e: (K, V)| e.0@)
    }

    /// The entries are what the map holds, in the order of the keys.
    pub proof fn lemma_entries(&self)
        requires
            self.wf(),
        ensures
            ascending(self.entries()),
            self@ == as_map(self.entries()),
            forall|i: int|
                0 <= i < self.entries().len() ==> self@.dom().contains(
                    (#[trigger] self.entries()[i]).0@,
                ) && self@[self.entries()[i].0@] == self.entries()[i].1,
            forall|key: K::V| #[trigger]
                self@.dom().contains(key) ==> exists|i: int|
                    key_stands_at(self.entries(), key, i),
    {
        assert forall|i: int| 0 <= i < self.entries().len() implies self@.dom().contains(
            (#[trigger] self.entries()[i]).0@,
        ) && self@[self.entries()[i].0@] == self.entries()[i].1 by {
            lemma_value_at(self.entries@, i);
        }
        assert forall|key: K::V| #[trigger] self@.dom().contains(key) implies exists|i: int|
            key_stands_at(self.entries(), key, i) by {
            assert(has_key(self.entries@, key));
            let i = choose|i: int| key_stands_at(self.entries@, key, i);
            assert(key_stands_at(self.entries(), key, i));
        }
    }

    pub fn new() -> (r: Self)
        ensures
            r.wf(),
            r@ == Map::<K::V, V>::empty(),
            r.entries() == Seq::<(K, V)>::empty(),
    {
        let r = OrdMap { entries: Vec::new() };
        assert(r@ =~= Map::<K::V, V>::empty());
        r
    }

    pub fn len(&self) -> (r: usize)
        ensures
            r == self.entries().len(),
    {
        self.entries.len()
    }

    pub fn is_empty(&self) -> (r: bool)
        requires
            self.wf(),
        ensures
            r == (self@ == Map::<K::V, V>::empty()),
    {
        proof {
            self.lemma_entries();
            if self.entries@.len() > 0 {
                assert(self@.dom().contains(self.entries@[0].0@));
            } else {
                assert(self@ =~= Map::<K::V, V>::empty());
            }
        }
        self.entries.len() == 0
    }

    /// The entry at position `i`.
    pub fn at(&self, i: usize) -> (r: &(K, V))
        requires
            i < self.entries().len(),
        ensures
            *r == self.entries()[i as int],
    {
        &self.entries[i]
    }

    /// The entries in the order of the keys.
    pub fn into_entries(self) -> (r: Vec<(K, V)>)
        ensures
            r@ == self.entries(),
    {
        self.entries
    }

    /// Where `key` stands or would have to stand, and whether it does.
    fn position(&self, key: &K) -> (r: (usize, bool))
        requires
            self.wf(),
        ensures
            r.0 <= self.entries@.len(),
            r.1 ==> key_stands_at(self.entries@, key@, r.0 as int),
            !r.1 ==> !has_key(self.entries@, key@),
            forall|i: int|
                0 <= i < r.0 ==> order::before(
                    K::rank((#[trigger] self.entries@[i]).0@),
                    K::rank(key@),
                ),
            !r.1 ==> forall|i: int|
                r.0 <= i < self.entries@.len() ==> order::before(
                    K::rank(key@),
                    K::rank((#[trigger] self.entries@[i]).0@),
                ),
    {
        let ghost e = self.entries@;
        let ghost k = K::rank(key@);
        let mut low: usize = 0;
        let mut high: usize = self.entries.len();
        while low < high
            invariant
                self.wf(),
                e == self.entries@,
                k == K::rank(key@),
                low <= high <= e.len(),
                forall|i: int|
                    0 <= i < low ==> order::before(K::rank((#[trigger] e[i]).0@), k),
                forall|i: int|
                    high <= i < e.len() ==> !order::before(K::rank((#[trigger] e[i]).0@), k),
            decreases high - low,
        {
            let mid: usize = low + (high - low) / 2;
            if self.entries[mid].0.comes_before(key) {
                assert forall|i: int| 0 <= i < mid + 1 implies order::before(
                    K::rank((#[trigger] e[i]).0@),
                    k,
                ) by {
                    if i < mid {
                        order::lemma_before_transitive(
                            K::rank(e[i].0@),
                            K::rank(e[mid as int].0@),
                            k,
                        );
                    }
                }
                low = mid + 1;
            } else {
                assert forall|i: int| mid <= i < e.len() implies !order::before(
                    K::rank((#[trigger] e[i]).0@),
                    k,
                ) by {
                    if i > mid && order::before(K::rank(e[i].0@), k) {
                        order::lemma_before_transitive(
                            K::rank(e[mid as int].0@),
                            K::rank(e[i].0@),
                            k,
                        );
                    }
                }
                high = mid;
            }
        }
        if low < self.entries.len() && !key.comes_before(&self.entries[low].0) {
            proof {
                order::lemma_before_total(k, K::rank(e[low as int].0@));
                K::lemma_rank_differs(key@, e[low as int].0@);
                assert(key_stands_at(e, key@, low as int));
            }
            (low, true)
        } else {
            proof {
                assert forall|i: int| low <= i < e.len() implies order::before(
                    k,
                    K::rank((#[trigger] e[i]).0@),
                ) by {
                    if i > low {
                        order::lemma_before_transitive(
                            k,
                            K::rank(e[low as int].0@),
                            K::rank(e[i].0@),
                        );
                    }
                }
                if has_key(e, key@) {
                    let i = choose|i: int| key_stands_at(e, key@, i);
                    order::lemma_before_irreflexive(k);
                    assert(e[i].0@ == key@);
                }
            }
            (low, false)
        }
    }

    /// The value of `key`.
    pub fn get(&self, key: &K) -> (r: Option<&V>)
        requires
            self.wf(),
        ensures
            r is Some <==> self@.dom().contains(key@),
            r matches Some(value) ==> *value == self@[key@],
    {
        let p = self.position(key);
        if p.1 {
            proof {
                lemma_value_at(self.entries@, p.0 as int);
            }
            Some(&self.entries[p.0].1)
        } else {
            None
        }
    }

    pub fn contains(&self, key: &K) -> (r: bool)
        requires
            self.wf(),
        ensures
            r == self@.dom().contains(key@),
    {
        let p = self.position(key);
        p.1
    }

    /// Gives `key` the value, whatever it had before. Where an equal key is
    /// held already, that one stays.
    pub fn insert(&mut self, key: K, value: V)
        requires
            old(self).wf(),
        ensures
            final(self).wf(),
            final(self)@ == old(self)@.insert(key@, value),
            forall|k: K| #[trigger]
                holds(final(self).entries(), k) ==> holds(old(self).entries(), k) || (k == key
                    && !old(self)@.dom().contains(key@)),
    {
        let ghost e = self.entries@;
        let p = self.position(&key);
        if p.1 {
            self.entries[p.0].1 = value;
            proof {
                let f = self.entries@;
                assert(f =~= e.update(p.0 as int, (e[p.0 as int].0, value)));
                assert forall|k: K| #[trigger] holds(f, k) implies holds(e, k) by {
                    let i = choose|i: int| 0 <= i < f.len() && (#[trigger] f[i]).0 == k;
                    assert(e[i].0 == k);
                }
                assert forall|i: int, j: int| 0 <= i < j < f.len() implies order::before(
                    K::rank((#[trigger] f[i]).0@),
                    K::rank((#[trigger] f[j]).0@),
                ) by {
                    assert(f[i].0@ == e[i].0@);
                    assert(f[j].0@ == e[j].0@);
                }
                lemma_replaced(e, f, p.0 as int);
            }
        } else {
            self.entries.insert(p.0, (key, value));
            proof {
                let f = self.entries@;
                lemma_inserted(e, f, p.0 as int);
                assert forall|k: K| #[trigger] holds(f, k) && k != key implies holds(e, k) by {
                    let i = choose|i: int| 0 <= i < f.len() && (#[trigger] f[i]).0 == k;
                    if i < p.0 {
                        assert(e[i].0 == k);
                    } else {
                        assert(e[i - 1].0 == k);
                    }
                }
            }
        }
    }
}

proof fn lemma_replaced<K: Key, V>(e: Seq<(K, V)>, f: Seq<(K, V)>, p: int)
    requires
        ascending(e),
        ascending(f),
        0 <= p < e.len(),
        f == e.update(p, f[p]),
        f[p].0@ == e[p].0@,
    ensures
        as_map(f) == as_map(e).insert(f[p].0@, f[p].1),
{
    let key = f[p].0@;
    let old_map = as_map(e);
    let new_map = as_map(f);
    assert forall|k: K::V| new_map.dom().contains(k) == old_map.insert(
        key,
        f[p].1,
    ).dom().contains(k) by {
        if has_key(f, k) {
            let i = choose|i: int| key_stands_at(f, k, i);
            assert(key_stands_at(e, k, i));
        }
        if has_key(e, k) {
            let i = choose|i: int| key_stands_at(e, k, i);
            assert(key_stands_at(f, k, i));
        }
        assert(key_stands_at(f, key, p));
    }
    assert forall|k: K::V| new_map.dom().contains(k) implies new_map[k] == old_map.insert(
        key,
        f[p].1,
    )[k] by {
        let i = choose|i: int| key_stands_at(f, k, i);
        lemma_value_at(f, i);
        lemma_value_at(e, i);
        if k == key {
            lemma_unique(f, i, p);
        }
    }
    assert(new_map =~= old_map.insert(key, f[p].1));
}

proof fn lemma_inserted<K: Key, V>(e: Seq<(K, V)>, f: Seq<(K, V)>, p: int)
    requires
        ascending(e),
        0 <= p <= e.len(),
        f == e.insert(p, f[p]),
        forall|i: int|
            0 <= i < p ==> order::before(K::rank((#[trigger] e[i]).0@), K::rank(f[p].0@)),
        forall|i: int|
            p <= i < e.len() ==> order::before(K::rank(f[p].0@), K::rank((#[trigger] e[i]).0@)),
    ensures
        ascending(f),
        as_map(f) == as_map(e).insert(f[p].0@, f[p].1),
{
    let key = f[p].0@;
    let old_map = as_map(e);
    let new_map = as_map(f);
    assert forall|i: int, j: int| 0 <= i < j < f.len() implies order::before(
        K::rank((#[trigger] f[i]).0@),
        K::rank((#[trigger] f[j]).0@),
    ) by {
        let x = if i < p {
            i
        } else {
            i - 1
        };
        let y = if j < p {
            j
        } else {
            j - 1
        };
        if i != p {
            assert(f[i] == e[x]);
        }
        if j != p {
            assert(f[j] == e[y]);
        }
    }
    assert forall|k: K::V| new_map.dom().contains(k) == old_map.insert(
        key,
        f[p].1,
    ).dom().contains(k) by {
        if has_key(f, k) {
            let i = choose|i: int| key_stands_at(f, k, i);
            if i < p {
                assert(key_stands_at(e, k, i));
            } else if i > p {
                assert(key_stands_at(e, k, i - 1));
            }
        }
        if has_key(e, k) {
            let i = choose|i: int| key_stands_at(e, k, i);
            if i < p {
                assert(key_stands_at(f, k, i));
            } else {
                assert(key_stands_at(f, k, i + 1));
            }
        }
        assert(key_stands_at(f, key, p));
    }
    assert forall|k: K::V| new_map.dom().contains(k) implies new_map[k] == old_map.insert(
        key,
        f[p].1,
    )[k] by {
        let i = choose|i: int| key_stands_at(f, k, i);
        lemma_value_at(f, i);
        if i < p {
            lemma_value_at(e, i);
        } else if i > p {
            lemma_value_at(e, i - 1);
        }
        if k == key {
            lemma_unique(f, i, p);
        }
    }
    assert(new_map =~= old_map.insert(key, f[p].1));
}

} // verus!
