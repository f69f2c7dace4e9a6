//! The array map codec: a key-value mapping is serialized as the bare
//! sequence of its values in ascending key order, keys dropped, and
//! rebuilt on load by re-deriving each key from its value. When two
//! values derive the same key, the later one in sequence order silently
//! overwrites the earlier one — a deliberate policy, not an error.

use vstd::prelude::*;
use crate::value::{Val, DeriveKey};
use crate::map::{OrderedMap, map_of_entries, lemma_map_of_entries_props};

verus! {

/// Why rebuilding a map can fail.
#[derive(Clone, Copy, PartialEq, Eq, Structural, Debug)]
pub enum CodecError {
    /// A single element of the serialized sequence failed to decode.
    MalformedValue,
}

/// The mapping rebuilt from a bare value sequence: each value is stored
/// under its derived key, values applied left to right, so on a key
/// collision the later value wins.
pub open spec fn rebuilt_map<K, V: DeriveKey<K>>(vals: Seq<V>) -> Map<K, V>
    decreases vals.len(),
{
    if vals.len() == 0 {
        Map::empty()
    } else {
        rebuilt_map(vals.drop_last()).insert(vals.last().key_spec(), vals.last())
    }
}

/// Every representation in the sequence decodes.
pub open spec fn all_decode<V: Val>(reprs: Seq<V::Repr>) -> bool {
    forall|i: int| 0 <= i < reprs.len() ==> (#[trigger] V::decode_spec(reprs[i])) is Some
}

/// The values a representation sequence decodes to.
pub open spec fn decoded_seq<V: Val>(reprs: Seq<V::Repr>) -> Seq<V> {
    reprs.map_values(|r: V::Repr| V::decode_spec(r).unwrap())
}

/// All derived keys of the sequence are pairwise distinct.
pub open spec fn distinct_keys<K, V: DeriveKey<K>>(vals: Seq<V>) -> bool {
    forall|i: int, j: int| 0 <= i < j < vals.len()
        ==> (#[trigger] vals[i]).key_spec() != (#[trigger] vals[j]).key_spec()
}

/// An entry sequence whose entries each carry the key their value
/// derives denotes, through its values alone, the same mapping it
/// denotes as an entry sequence.
proof fn lemma_rebuilt_eq_map_of<K, V: DeriveKey<K>>(s: Seq<(K, V)>)
    requires
        forall|i: int| 0 <= i < s.len() ==> ((#[trigger] s[i]).1).key_spec() == s[i].0,
    ensures
        rebuilt_map::<K, V>(s.map_values(|e: (K, V)| e.1)) == map_of_entries(s),
    decreases s.len(),
{
    let vals = s.map_values(|e: (K, V)| e.1);
    if s.len() == 0 {
        assert(vals.len() == 0);
    } else {
        let s0 = s.drop_last();
        assert(forall|i: int| 0 <= i < s0.len() ==> #[trigger] s0[i] == s[i]);
        assert(vals.drop_last() =~= s0.map_values(|e: (K, V)| e.1));
        lemma_rebuilt_eq_map_of(s0);
        assert(vals.last() == s.last().1);
        assert((s.last().1).key_spec() == s.last().0);
    }
}

/// What the rebuilt mapping holds: exactly the derived keys of the
/// sequence, and, for a value whose key no later value derives again,
/// exactly that value — so among colliding values, the last one in
/// sequence order wins.
pub proof fn lemma_rebuilt_map_props<K, V: DeriveKey<K>>(vals: Seq<V>)
    ensures
        forall|k: K| #[trigger] rebuilt_map::<K, V>(vals).contains_key(k)
            <==> exists|i: int| 0 <= i < vals.len() && (#[trigger] vals[i]).key_spec() == k,
        forall|i: int| 0 <= i < vals.len()
            && (forall|j: int| i < j < vals.len()
                ==> (#[trigger] vals[j]).key_spec() != vals[i].key_spec())
            ==> rebuilt_map::<K, V>(vals)[(#[trigger] vals[i]).key_spec()] == vals[i],
{
    let s = vals.map_values(|v: V| (v.key_spec(), v));
    assert(s.map_values(|e: (K, V)| e.1) =~= vals);
    lemma_rebuilt_eq_map_of(s);
    lemma_map_of_entries_props(s);
    let m = rebuilt_map::<K, V>(vals);
    assert forall|k: K| #[trigger] m.contains_key(k)
        implies exists|i: int| 0 <= i < vals.len() && (#[trigger] vals[i]).key_spec() == k by {
        let i = choose|i: int| 0 <= i < s.len() && (#[trigger] s[i]).0 == k;
        assert((vals[i]).key_spec() == k);
    }
    assert forall|k: K| (exists|i: int| 0 <= i < vals.len() && (#[trigger] vals[i]).key_spec() == k)
        implies #[trigger] m.contains_key(k) by {
        let i = choose|i: int| 0 <= i < vals.len() && (#[trigger] vals[i]).key_spec() == k;
        assert((s[i]).0 == k);
    }
    assert forall|i: int| 0 <= i < vals.len()
        && (forall|j: int| i < j < vals.len()
            ==> (#[trigger] vals[j]).key_spec() != vals[i].key_spec())
        implies m[(#[trigger] vals[i]).key_spec()] == vals[i] by {
        assert forall|j: int| i < j < s.len() implies (#[trigger] s[j]).0 != s[i].0 by {
            assert((vals[j]).key_spec() != (vals[i]).key_spec());
        }
        assert(map_of_entries(s)[(s[i]).0] == s[i].1);
    }
}

/// Round trip: a well-formed map whose key derivation agrees with the
/// keys its values are stored under is rebuilt exactly from its bare
/// value sequence.
pub proof fn lemma_round_trip<K: Val, V: Val + DeriveKey<K>>(m: OrderedMap<K, V>)
    requires
        m.wf(),
        forall|k: K| #[trigger] m.as_map().contains_key(k) ==> m.as_map()[k].key_spec() == k,
    ensures
        rebuilt_map::<K, V>(m.values_seq()) == m.as_map(),
{
    let s = m.entries_seq();
    lemma_map_of_entries_props(s);
    assert forall|i: int| 0 <= i < s.len() implies ((#[trigger] s[i]).1).key_spec() == s[i].0 by {
        assert forall|j: int| i < j < s.len() implies (#[trigger] s[j]).0 != s[i].0 by {
            assert(K::le_spec((s[i]).0, (s[j]).0) && (s[i]).0 != (s[j]).0);
        }
        assert(m.as_map() == map_of_entries(s));
        assert(m.as_map()[(s[i]).0] == s[i].1);
        assert(m.as_map().contains_key((s[i]).0));
        assert(m.as_map()[(s[i]).0].key_spec() == (s[i]).0);
    }
    lemma_rebuilt_eq_map_of(s);
}

/// Pairwise distinctness of derived keys depends only on which values a
/// sequence carries, not on their order.
proof fn lemma_distinct_keys_transfer<K, V: DeriveKey<K>>(vals1: Seq<V>, vals2: Seq<V>)
    requires
        vals1.to_multiset() == vals2.to_multiset(),
        distinct_keys::<K, V>(vals1),
    ensures
        distinct_keys::<K, V>(vals2),
{
    broadcast use vstd::seq_lib::group_to_multiset_ensures;

    assert forall|i: int, j: int| 0 <= i < j < vals2.len()
        implies (#[trigger] vals2[i]).key_spec() != (#[trigger] vals2[j]).key_spec() by {
        let u = vals2[i];
        let w = vals2[j];
        if u == w {
            assert(vals2.remove(i).to_multiset() =~= vals2.to_multiset().remove(u));
            vals2.remove_ensures(i);
            assert(vals2.remove(i)[j - 1] == u);
            assert(vals2.remove(i).contains(u));
            assert(vals2.remove(i).to_multiset().count(u) > 0);
            assert(vals2.to_multiset().count(u) >= 2);
            assert(vals1.to_multiset().count(u) >= 2);
            assert(vals1.contains(u));
            let a = choose|a: int| 0 <= a < vals1.len() && vals1[a] == u;
            assert(vals1.remove(a).to_multiset() =~= vals1.to_multiset().remove(u));
            assert(vals1.remove(a).to_multiset().count(u) > 0);
            assert(vals1.remove(a).contains(u));
            let b0 = choose|b0: int| 0 <= b0 < vals1.remove(a).len() && vals1.remove(a)[b0] == u;
            vals1.remove_ensures(a);
            let b = if b0 < a { b0 } else { b0 + 1 };
            assert(vals1[b] == u);
            assert(b != a);
            if a < b {
                assert((vals1[a]).key_spec() != (vals1[b]).key_spec());
            } else {
                assert((vals1[b]).key_spec() != (vals1[a]).key_spec());
            }
            assert(false);
        } else {
            assert(vals2.contains(u));
            assert(vals2.contains(w));
            assert(vals2.to_multiset().count(u) > 0);
            assert(vals2.to_multiset().count(w) > 0);
            assert(vals1.contains(u));
            assert(vals1.contains(w));
            let a = choose|a: int| 0 <= a < vals1.len() && vals1[a] == u;
            let b = choose|b: int| 0 <= b < vals1.len() && vals1[b] == w;
            assert(a != b);
            if (vals2[i]).key_spec() == (vals2[j]).key_spec() {
                if a < b {
                    assert((vals1[a]).key_spec() != (vals1[b]).key_spec());
                } else {
                    assert((vals1[b]).key_spec() != (vals1[a]).key_spec());
                }
                assert(false);
            }
        }
    }
}

/// Order independence: reordering a value sequence whose derived keys
/// are pairwise distinct does not change the rebuilt mapping.
pub proof fn lemma_order_independent<K, V: DeriveKey<K>>(vals1: Seq<V>, vals2: Seq<V>)
    requires
        vals1.to_multiset() == vals2.to_multiset(),
        distinct_keys::<K, V>(vals1),
    ensures
        rebuilt_map::<K, V>(vals1) == rebuilt_map::<K, V>(vals2),
{
    broadcast use vstd::seq_lib::group_to_multiset_ensures;

    lemma_distinct_keys_transfer::<K, V>(vals1, vals2);
    lemma_rebuilt_map_props::<K, V>(vals1);
    lemma_rebuilt_map_props::<K, V>(vals2);
    let m1 = rebuilt_map::<K, V>(vals1);
    let m2 = rebuilt_map::<K, V>(vals2);
    assert forall|k: K| m1.contains_key(k) implies m2.contains_key(k) && m2[k] == m1[k] by {
        let i = choose|i: int| 0 <= i < vals1.len() && (#[trigger] vals1[i]).key_spec() == k;
        let v = vals1[i];
        assert(vals1.contains(v));
        assert(vals1.to_multiset().count(v) > 0);
        assert(vals2.contains(v));
        let i2 = choose|i2: int| 0 <= i2 < vals2.len() && vals2[i2] == v;
        assert(forall|j: int| i < j < vals1.len()
            ==> (#[trigger] vals1[j]).key_spec() != vals1[i].key_spec());
        assert(m1[k] == v);
        assert((vals2[i2]).key_spec() == k);
        assert(m2.contains_key(k));
        assert(forall|j: int| i2 < j < vals2.len()
            ==> (#[trigger] vals2[j]).key_spec() != vals2[i2].key_spec());
        assert(m2[k] == v);
    }
    assert forall|k: K| m2.contains_key(k) implies m1.contains_key(k) by {
        let i = choose|i: int| 0 <= i < vals2.len() && (#[trigger] vals2[i]).key_spec() == k;
        let v = vals2[i];
        assert(vals2.contains(v));
        assert(vals2.to_multiset().count(v) > 0);
        assert(vals1.contains(v));
        let i1 = choose|i1: int| 0 <= i1 < vals1.len() && vals1[i1] == v;
        assert((vals1[i1]).key_spec() == k);
    }
    assert(m1 =~= m2);
}

/// Serialize: the values of the map in ascending key order, keys
/// dropped. Never fails on its own.
pub fn serialize<K: Val, V: Val>(m: &OrderedMap<K, V>) -> (r: Vec<V>)
    ensures
        r@ == m.values_seq(),
{
    m.values()
}

/// Rebuild a map from a bare value sequence: each value is inserted
/// under its re-derived key, in sequence order, so on a key collision
/// the later value silently wins. Total: key derivation never fails.
pub fn from_values<K: Val, V: Val + DeriveKey<K>>(vals: Vec<V>) -> (m: OrderedMap<K, V>)
    ensures
        m.wf(),
        m.as_map() == rebuilt_map::<K, V>(vals@),
{
    let mut m = OrderedMap::<K, V>::new();
    let n = vals.len();
    proof {
        assert(vals@.take(0) =~= Seq::<V>::empty());
    }
    let mut i: usize = 0;
    while i < n
        invariant
            n == vals@.len(),
            i <= n,
            m.wf(),
            m.as_map() == rebuilt_map::<K, V>(vals@.take(i as int)),
        decreases n - i,
    {
        let v = vals[i].clone_val();
        let k = v.derive_key();
        m.insert(k, v);
        proof {
            let pre = vals@.take(i as int);
            let post = vals@.take(i as int + 1);
            assert(post.drop_last() =~= pre);
            assert(post.last() == vals@[i as int]);
        }
        i = i + 1;
    }
    proof {
        assert(vals@.take(n as int) =~= vals@);
    }
    m
}

/// Deserialize: decode every element of the sequence, then rebuild the
/// map with re-derived keys. Returns the rebuilt map exactly when every
/// element decodes; the first element that does not aborts the whole
/// call with `MalformedValue`, and no partial map is handed out.
pub fn deserialize<K: Val, V: Val + DeriveKey<K>>(reprs: &Vec<V::Repr>) -> (r: Result<
    OrderedMap<K, V>,
    CodecError,
>)
    ensures
        r is Ok <==> all_decode::<V>(reprs@),
        r matches Ok(m) ==> m.wf() && m.as_map() == rebuilt_map::<K, V>(decoded_seq::<V>(reprs@)),
        r matches Err(e) ==> e == CodecError::MalformedValue,
{
    let n = reprs.len();
    let mut vals: Vec<V> = Vec::new();
    proof {
        assert(vals@ =~= decoded_seq::<V>(reprs@.take(0)));
    }
    let mut i: usize = 0;
    while i < n
        invariant
            n == reprs@.len(),
            i <= n,
            forall|j: int| 0 <= j < i ==> (#[trigger] V::decode_spec(reprs@[j])) is Some,
            vals@ == decoded_seq::<V>(reprs@.take(i as int)),
        decreases n - i,
    {
        match V::decode(&reprs[i]) {
            Some(v) => {
                vals.push(v);
                proof {
                    assert(vals@ =~= decoded_seq::<V>(reprs@.take(i as int + 1)));
                }
            }
            None => {
                proof {
                    assert(0 <= i < reprs@.len() && !(V::decode_spec(reprs@[i as int]) is Some));
                    assert(!all_decode::<V>(reprs@));
                }
                return Err(CodecError::MalformedValue);
            }
        }
        i = i + 1;
    }
    proof {
        assert(reprs@.take(n as int) =~= reprs@);
        assert(all_decode::<V>(reprs@));
    }
    Ok(from_values(vals))
}

} // verus!
