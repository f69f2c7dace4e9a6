//! An ordered associative container with unique, totally ordered keys:
//! the canonical in-memory form of key-value program data. It is stored
//! as an entry vector kept strictly ascending by key, and is modelled by
//! the mapping that the entry sequence denotes.

use vstd::prelude::*;
use vstd::pervasive::VecAdditionalExecFns;
use crate::value::{Val, KeyOrder};

verus! {

/// The mapping an entry sequence denotes: entries applied left to right,
/// a later entry overwriting an earlier one with the same key.
pub open spec fn map_of_entries<K, V>(s: Seq<(K, V)>) -> Map<K, V>
    decreases s.len(),
{
    if s.len() == 0 {
        Map::empty()
    } else {
        map_of_entries(s.drop_last()).insert(s.last().0, s.last().1)
    }
}

/// What `map_of_entries` holds: exactly the keys of the sequence, and,
/// for an entry no later entry duplicates, exactly that entry's value —
/// so among entries with one key, the last one wins.
pub proof fn lemma_map_of_entries_props<K, V>(s: Seq<(K, V)>)
    ensures
        forall|k: K| #[trigger] map_of_entries(s).contains_key(k)
            <==> exists|i: int| 0 <= i < s.len() && (#[trigger] s[i]).0 == k,
        forall|i: int| 0 <= i < s.len()
            && (forall|j: int| i < j < s.len() ==> (#[trigger] s[j]).0 != s[i].0)
            ==> map_of_entries(s)[(#[trigger] s[i]).0] == s[i].1,
    decreases s.len(),
{
    if s.len() == 0 {
    } else {
        let s0 = s.drop_last();
        lemma_map_of_entries_props(s0);
        assert(forall|i: int| 0 <= i < s0.len() ==> #[trigger] s0[i] == s[i]);
        assert forall|k: K| #[trigger] map_of_entries(s).contains_key(k)
            implies exists|i: int| 0 <= i < s.len() && (#[trigger] s[i]).0 == k by {
            if k == s.last().0 {
                assert((s[s.len() - 1]).0 == k);
            } else {
                assert(map_of_entries(s0).contains_key(k));
                let i = choose|i: int| 0 <= i < s0.len() && (#[trigger] s0[i]).0 == k;
                assert((s[i]).0 == k);
            }
        }
        assert forall|k: K| (exists|i: int| 0 <= i < s.len() && (#[trigger] s[i]).0 == k)
            implies #[trigger] map_of_entries(s).contains_key(k) by {
            let i = choose|i: int| 0 <= i < s.len() && (#[trigger] s[i]).0 == k;
            if i == s.len() - 1 {
            } else {
                assert((s0[i]).0 == k);
                assert(map_of_entries(s0).contains_key(k));
            }
        }
        assert forall|i: int| 0 <= i < s.len()
            && (forall|j: int| i < j < s.len() ==> (#[trigger] s[j]).0 != s[i].0)
            implies map_of_entries(s)[(#[trigger] s[i]).0] == s[i].1 by {
            if i == s.len() - 1 {
            } else {
                assert((s[s.len() - 1]).0 != s[i].0);
                assert(forall|j: int| i < j < s0.len() ==> (#[trigger] s0[j]).0 != s0[i].0);
                assert(map_of_entries(s0)[(s0[i]).0] == s0[i].1);
                assert(map_of_entries(s)[(s[i]).0] == map_of_entries(s0)[(s0[i]).0]);
            }
        }
    }
}

/// Splicing a fresh entry `(k, v)` into an entry sequence at position `i`
/// denotes the same mapping as inserting `k ↦ v`, provided no entry from
/// `i` on already carries the key `k`.
proof fn lemma_map_of_insert_at<K, V>(s: Seq<(K, V)>, i: int, k: K, v: V)
    requires
        0 <= i <= s.len(),
        forall|j: int| i <= j < s.len() ==> (#[trigger] s[j]).0 != k,
    ensures
        map_of_entries(s.insert(i, (k, v))) == map_of_entries(s).insert(k, v),
    decreases s.len() - i,
{
    s.insert_ensures(i, (k, v));
    let t = s.insert(i, (k, v));
    if i == s.len() {
        assert(t.drop_last() =~= s);
        assert(t.last() == (k, v));
    } else {
        let s0 = s.drop_last();
        assert(t.last() == s[s.len() - 1]);
        s0.insert_ensures(i, (k, v));
        assert(t.drop_last() =~= s0.insert(i, (k, v)));
        assert(forall|j: int| 0 <= j < s0.len() ==> #[trigger] s0[j] == s[j]);
        lemma_map_of_insert_at(s0, i, k, v);
        assert((s.last()).0 != k);
        assert(map_of_entries(s0).insert(k, v).insert(s.last().0, s.last().1)
            =~= map_of_entries(s0).insert(s.last().0, s.last().1).insert(k, v));
        assert(map_of_entries(t)
            == map_of_entries(s0).insert(k, v).insert(s.last().0, s.last().1));
    }
}

/// Overwriting the entry at position `i`, which carries the key `k` and
/// which no later entry duplicates, denotes the same mapping as inserting
/// `k ↦ v`.
proof fn lemma_map_of_update_at<K, V>(s: Seq<(K, V)>, i: int, k: K, v: V)
    requires
        0 <= i < s.len(),
        (s[i]).0 == k,
        forall|j: int| i < j < s.len() ==> (#[trigger] s[j]).0 != k,
    ensures
        map_of_entries(s.update(i, (k, v))) == map_of_entries(s).insert(k, v),
    decreases s.len(),
{
    let t = s.update(i, (k, v));
    if i == s.len() - 1 {
        assert(t.drop_last() =~= s.drop_last());
        assert(t.last() == (k, v));
        assert(map_of_entries(s.drop_last()).insert(k, s.last().1).insert(k, v)
            =~= map_of_entries(s.drop_last()).insert(k, v));
    } else {
        let s0 = s.drop_last();
        assert(t.last() == s.last());
        assert(t.drop_last() =~= s0.update(i, (k, v)));
        assert(forall|j: int| 0 <= j < s0.len() ==> #[trigger] s0[j] == s[j]);
        lemma_map_of_update_at(s0, i, k, v);
        assert((s.last()).0 != k);
        assert(map_of_entries(s0).insert(k, v).insert(s.last().0, s.last().1)
            =~= map_of_entries(s0).insert(s.last().0, s.last().1).insert(k, v));
        assert(map_of_entries(t)
            == map_of_entries(s0).insert(k, v).insert(s.last().0, s.last().1));
    }
}

/// An entry sequence with pairwise-distinct keys denotes a mapping with
/// one key per entry.
proof fn lemma_map_of_dom_len<K, V>(s: Seq<(K, V)>)
    requires
        forall|i: int, j: int| 0 <= i < j < s.len() ==> (#[trigger] s[i]).0 != (#[trigger] s[j]).0,
    ensures
        map_of_entries(s).dom().finite(),
        map_of_entries(s).dom().len() == s.len(),
    decreases s.len(),
{
    broadcast use vstd::set::group_set_axioms;

    if s.len() == 0 {
        assert(map_of_entries(s).dom() =~= Set::<K>::empty());
    } else {
        let s0 = s.drop_last();
        assert(forall|i: int| 0 <= i < s0.len() ==> #[trigger] s0[i] == s[i]);
        lemma_map_of_dom_len(s0);
        lemma_map_of_entries_props(s0);
        if map_of_entries(s0).dom().contains(s.last().0) {
            assert(map_of_entries(s0).contains_key(s.last().0));
            let i = choose|i: int| 0 <= i < s0.len() && (#[trigger] s0[i]).0 == s.last().0;
            assert((s[i]).0 != (s[s.len() - 1]).0);
            assert(false);
        }
        assert(map_of_entries(s).dom() =~= map_of_entries(s0).dom().insert(s.last().0));
    }
}

/// An ordered map: entries kept strictly ascending by key.
pub struct OrderedMap<K: Val, V> {
    entries: Vec<(K, V)>,
}

impl<K: Val, V> OrderedMap<K, V> {
    /// The stored entry sequence, in key order when the map is
    /// well-formed.
    pub closed spec fn entries_seq(self) -> Seq<(K, V)> {
        self.entries@
    }

    /// Well-formed: keys strictly ascending, hence unique.
    pub open spec fn wf(self) -> bool {
        forall|i: int, j: int| 0 <= i < j < self.entries_seq().len()
            ==> K::le_spec((#[trigger] self.entries_seq()[i]).0, (#[trigger] self.entries_seq()[j]).0)
                && self.entries_seq()[i].0 != self.entries_seq()[j].0
    }

    /// The values in storage order, keys dropped.
    pub open spec fn values_seq(self) -> Seq<V> {
        self.entries_seq().map_values(|e: (K, V)| e.1)
    }

    /// The mapping this container denotes.
    pub open spec fn as_map(self) -> Map<K, V> {
        map_of_entries(self.entries_seq())
    }

    /// Number of entries.
    pub open spec fn spec_len(self) -> nat {
        self.entries_seq().len()
    }

    /// An empty map.
    pub fn new() -> (m: Self)
        ensures
            m.wf(),
            m.entries_seq() == Seq::<(K, V)>::empty(),
            m.as_map() == Map::<K, V>::empty(),
    {
        OrderedMap { entries: Vec::new() }
    }

    /// Number of entries stored.
    pub fn len(&self) -> (n: usize)
        ensures
            n == self.spec_len(),
    {
        self.entries.len()
    }

    /// First position whose key is not strictly before `key`: every
    /// earlier entry's key is strictly before `key`, and the entry at the
    /// returned position, if any, carries `key` itself or a key strictly
    /// after it.
    fn slot(&self, key: &K) -> (i: usize)
        requires
            self.wf(),
        ensures
            i <= self.entries_seq().len(),
            forall|j: int| 0 <= j < i
                ==> K::le_spec((#[trigger] self.entries_seq()[j]).0, *key)
                    && self.entries_seq()[j].0 != *key,
            i < self.entries_seq().len()
                ==> (self.entries_seq()[i as int].0 == *key
                    || (K::le_spec(*key, self.entries_seq()[i as int].0)
                        && self.entries_seq()[i as int].0 != *key)),
    {
        let n = self.entries.len();
        let mut i: usize = 0;
        while i < n
            invariant
                n == self.entries_seq().len(),
                i <= n,
                forall|j: int| 0 <= j < i
                    ==> K::le_spec((#[trigger] self.entries_seq()[j]).0, *key)
                        && self.entries_seq()[j].0 != *key,
            decreases n - i,
        {
            let c = self.entries[i].0.cmp_val(key);
            match c {
                KeyOrder::Before => {
                    i = i + 1;
                }
                KeyOrder::Same => {
                    return i;
                }
                KeyOrder::After => {
                    return i;
                }
            }
        }
        i
    }

    /// Insert or overwrite: afterwards the map denotes the old mapping
    /// with `key ↦ value` added, and stays well-formed.
    pub fn insert(&mut self, key: K, value: V)
        requires
            old(self).wf(),
        ensures
            final(self).wf(),
            final(self).as_map() == old(self).as_map().insert(key, value),
            final(self).spec_len() == if old(self).as_map().contains_key(key) {
                old(self).spec_len()
            } else {
                old(self).spec_len() + 1
            },
    {
        let ghost s = self.entries@;
        proof {
            assert(old(self).as_map() == map_of_entries(s));
            lemma_map_of_entries_props(s);
        }
        let i = self.slot(&key);
        if i < self.entries.len() && self.entries[i].0.eq_val(&key) {
            proof {
                assert(0 <= i < s.len() && (s[i as int]).0 == key);
                assert(map_of_entries(s).contains_key(key));
                assert forall|j: int| (i as int) < j < s.len() implies (#[trigger] s[j]).0 != key by {
                    assert(K::le_spec((s[i as int]).0, (s[j]).0) && (s[i as int]).0 != (s[j]).0);
                }
            }
            self.entries.set(i, (key, value));
            proof {
                assert(self.entries@ =~= s.update(i as int, (key, value)));
                lemma_map_of_update_at(s, i as int, key, value);
                let t = self.entries@;
                assert forall|a: int, b: int| 0 <= a < b < t.len()
                    implies K::le_spec((#[trigger] t[a]).0, (#[trigger] t[b]).0) && t[a].0 != t[b].0 by {
                    assert((t[a]).0 == (s[a]).0);
                    assert((t[b]).0 == (s[b]).0);
                    assert(K::le_spec((s[a]).0, (s[b]).0) && (s[a]).0 != (s[b]).0);
                }
            }
        } else {
            proof {
                assert forall|j: int| i <= j < s.len() implies (#[trigger] s[j]).0 != key by {
                    if j == i {
                    } else {
                        K::order_laws((s[i as int]).0, (s[j]).0, (s[j]).0);
                        assert(K::le_spec((s[i as int]).0, (s[j]).0) && (s[i as int]).0 != (s[j]).0);
                        assert(K::le_spec(key, (s[i as int]).0));
                    }
                }
                if map_of_entries(s).contains_key(key) {
                    let j = choose|j: int| 0 <= j < s.len() && (#[trigger] s[j]).0 == key;
                    assert(false);
                }
            }
            self.entries.insert(i, (key, value));
            proof {
                s.insert_ensures(i as int, (key, value));
                lemma_map_of_insert_at(s, i as int, key, value);
                let t = self.entries@;
                assert(t == s.insert(i as int, (key, value)));
                assert forall|a: int, b: int| 0 <= a < b < t.len()
                    implies K::le_spec((#[trigger] t[a]).0, (#[trigger] t[b]).0) && t[a].0 != t[b].0 by {
                    if b < i {
                        assert(t[a] == s[a] && t[b] == s[b]);
                        assert(K::le_spec((s[a]).0, (s[b]).0) && (s[a]).0 != (s[b]).0);
                    } else if a < i && b == i {
                        assert(t[a] == s[a]);
                        assert(t[b].0 == key);
                        assert(K::le_spec((s[a]).0, key) && (s[a]).0 != key);
                    } else if a < i && b > i {
                        assert(t[a] == s[a] && t[b] == s[b - 1]);
                        assert(K::le_spec((s[a]).0, (s[b - 1]).0) && (s[a]).0 != (s[b - 1]).0);
                    } else if a > i {
                        assert(t[a] == s[a - 1] && t[b] == s[b - 1]);
                        assert(K::le_spec((s[a - 1]).0, (s[b - 1]).0) && (s[a - 1]).0 != (s[b - 1]).0);
                    } else {
                        assert(a == i && b > i);
                        assert(t[a].0 == key);
                        assert(t[b] == s[b - 1]);
                        assert(K::le_spec(key, (s[i as int]).0) && (s[i as int]).0 != key);
                        if b - 1 == i {
                        } else {
                            assert(K::le_spec((s[i as int]).0, (s[b - 1]).0)
                                && (s[i as int]).0 != (s[b - 1]).0);
                            K::order_laws(key, (s[i as int]).0, (s[b - 1]).0);
                            K::order_laws((s[i as int]).0, (s[b - 1]).0, (s[b - 1]).0);
                        }
                    }
                }
            }
        }
    }

    /// Look a key up in the mapping this container denotes.
    pub fn get(&self, key: &K) -> (r: Option<&V>)
        requires
            self.wf(),
        ensures
            match r {
                Some(v) => self.as_map().contains_key(*key) && *v == self.as_map()[*key],
                None => !self.as_map().contains_key(*key),
            },
    {
        let ghost s = self.entries@;
        let i = self.slot(key);
        proof {
            lemma_map_of_entries_props(s);
        }
        if i < self.entries.len() && self.entries[i].0.eq_val(key) {
            proof {
                assert forall|j: int| (i as int) < j < s.len() implies (#[trigger] s[j]).0 != s[i as int].0 by {
                    assert(K::le_spec((s[i as int]).0, (s[j]).0) && (s[i as int]).0 != (s[j]).0);
                }
                assert(map_of_entries(s)[(s[i as int]).0] == s[i as int].1);
            }
            Some(&self.entries[i].1)
        } else {
            proof {
                if map_of_entries(s).contains_key(*key) {
                    let j = choose|j: int| 0 <= j < s.len() && (#[trigger] s[j]).0 == *key;
                    assert(0 <= j < s.len());
                    if j < i {
                        assert((s[j]).0 != *key);
                    } else if j == i {
                        assert((s[i as int]).0 != *key);
                    } else {
                        assert(K::le_spec(*key, (s[i as int]).0) && (s[i as int]).0 != *key);
                        assert(K::le_spec((s[i as int]).0, (s[j]).0) && (s[i as int]).0 != (s[j]).0);
                        K::order_laws(*key, (s[i as int]).0, (s[j]).0);
                        K::order_laws((s[i as int]).0, (s[j]).0, (s[j]).0);
                        assert(false);
                    }
                }
            }
            None
        }
    }
}

/// Two entry sequences with strictly ascending keys that denote the same
/// mapping are the same sequence.
proof fn lemma_sorted_entries_unique<K: Val, V>(s1: Seq<(K, V)>, s2: Seq<(K, V)>)
    requires
        forall|i: int, j: int| 0 <= i < j < s1.len()
            ==> K::le_spec((#[trigger] s1[i]).0, (#[trigger] s1[j]).0) && (s1[i]).0 != (s1[j]).0,
        forall|i: int, j: int| 0 <= i < j < s2.len()
            ==> K::le_spec((#[trigger] s2[i]).0, (#[trigger] s2[j]).0) && (s2[i]).0 != (s2[j]).0,
        map_of_entries(s1) == map_of_entries(s2),
    ensures
        s1 == s2,
    decreases s1.len(),
{
    lemma_map_of_entries_props(s1);
    lemma_map_of_entries_props(s2);
    if s1.len() == 0 {
        if s2.len() > 0 {
            assert((s2[s2.len() - 1]).0 == s2.last().0);
            assert(map_of_entries(s2).contains_key(s2.last().0));
            let i = choose|i: int| 0 <= i < s1.len() && (#[trigger] s1[i]).0 == s2.last().0;
            assert(false);
        }
        assert(s1 =~= s2);
    } else {
        if s2.len() == 0 {
            assert((s1[s1.len() - 1]).0 == s1.last().0);
            assert(map_of_entries(s1).contains_key(s1.last().0));
            let i = choose|i: int| 0 <= i < s2.len() && (#[trigger] s2[i]).0 == s1.last().0;
            assert(false);
        }
        let k1 = s1.last().0;
        let k2 = s2.last().0;
        assert((s1[s1.len() - 1]).0 == k1);
        assert((s2[s2.len() - 1]).0 == k2);
        assert(map_of_entries(s1).contains_key(k1));
        assert(map_of_entries(s2).contains_key(k2));
        let a = choose|a: int| 0 <= a < s1.len() && (#[trigger] s1[a]).0 == k2;
        let b = choose|b: int| 0 <= b < s2.len() && (#[trigger] s2[b]).0 == k1;
        K::order_laws(k1, k1, k1);
        if a < s1.len() - 1 {
            assert(K::le_spec((s1[a]).0, k1));
        }
        if b < s2.len() - 1 {
            assert(K::le_spec((s2[b]).0, k2));
        }
        K::order_laws(k1, k2, k2);
        assert(k1 == k2);
        assert(forall|j: int| s1.len() - 1 < j < s1.len() ==> (#[trigger] s1[j]).0 != k1);
        assert(forall|j: int| s2.len() - 1 < j < s2.len() ==> (#[trigger] s2[j]).0 != k2);
        assert(map_of_entries(s1)[k1] == s1.last().1);
        assert(map_of_entries(s2)[k2] == s2.last().1);
        assert(s1.last() == s2.last());
        let t1 = s1.drop_last();
        let t2 = s2.drop_last();
        assert(forall|i: int| 0 <= i < t1.len() ==> #[trigger] t1[i] == s1[i]);
        assert(forall|i: int| 0 <= i < t2.len() ==> #[trigger] t2[i] == s2[i]);
        lemma_map_of_entries_props(t1);
        lemma_map_of_entries_props(t2);
        if map_of_entries(t1).contains_key(k1) {
            let i = choose|i: int| 0 <= i < t1.len() && (#[trigger] t1[i]).0 == k1;
            assert((s1[i]).0 != k1);
            assert(false);
        }
        if map_of_entries(t2).contains_key(k2) {
            let i = choose|i: int| 0 <= i < t2.len() && (#[trigger] t2[i]).0 == k2;
            assert((s2[i]).0 != k2);
            assert(false);
        }
        assert(map_of_entries(t1) =~= map_of_entries(s1).remove(k1));
        assert(map_of_entries(t2) =~= map_of_entries(s2).remove(k2));
        lemma_sorted_entries_unique(t1, t2);
        assert(s1.len() == t1.len() + 1 && s2.len() == t2.len() + 1);
        assert forall|i: int| 0 <= i < s1.len() implies s1[i] == s2[i] by {
            if i < s1.len() - 1 {
                assert(s1[i] == t1[i] && s2[i] == t2[i]);
            } else {
                assert(s1[i] == s1.last() && s2[i] == s2.last());
            }
        }
        assert(s1 =~= s2);
    }
}

/// The representation is canonical: two well-formed maps that denote the
/// same mapping store the same entry sequence, so they are
/// indistinguishable in every observation.
pub proof fn lemma_wf_entries_unique<K: Val, V>(m1: OrderedMap<K, V>, m2: OrderedMap<K, V>)
    requires
        m1.wf(),
        m2.wf(),
        m1.as_map() == m2.as_map(),
    ensures
        m1.entries_seq() == m2.entries_seq(),
        m1.values_seq() == m2.values_seq(),
{
    lemma_sorted_entries_unique::<K, V>(m1.entries_seq(), m2.entries_seq());
}

/// A well-formed map stores exactly one entry per key of the mapping it
/// denotes: its stored length is the cardinality of that mapping's
/// domain.
pub proof fn lemma_len_is_dom_len<K: Val, V>(m: OrderedMap<K, V>)
    requires
        m.wf(),
    ensures
        m.as_map().dom().finite(),
        m.spec_len() == m.as_map().dom().len(),
{
    let s = m.entries_seq();
    assert forall|i: int, j: int| 0 <= i < j < s.len()
        implies (#[trigger] s[i]).0 != (#[trigger] s[j]).0 by {
        assert(K::le_spec((s[i]).0, (s[j]).0) && (s[i]).0 != (s[j]).0);
    }
    lemma_map_of_dom_len(s);
}

impl<K: Val, V: Val> OrderedMap<K, V> {
    /// The values in ascending key order, keys dropped.
    pub fn values(&self) -> (r: Vec<V>)
        ensures
            r@ == self.values_seq(),
    {
        let n = self.entries.len();
        let mut r: Vec<V> = Vec::new();
        let mut i: usize = 0;
        while i < n
            invariant
                n == self.entries_seq().len(),
                i <= n,
                r@.len() == i,
                forall|j: int| 0 <= j < i ==> r@[j] == (#[trigger] self.entries_seq()[j]).1,
            decreases n - i,
        {
            r.push(self.entries[i].1.clone_val());
            i = i + 1;
        }
        proof {
            assert(r@ =~= self.values_seq());
        }
        r
    }
}

} // verus!
