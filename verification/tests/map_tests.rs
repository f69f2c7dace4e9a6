use arraymap_codec::{serialize, DeriveKey, KeyOrder, OrderedMap, Rec, Val};

fn rec(key: u64, tag: u64) -> Rec {
    Rec { key, tag }
}

#[test]
fn insert_and_get() {
    let mut m: OrderedMap<u64, Rec> = OrderedMap::new();
    assert_eq!(m.len(), 0);
    m.insert(2, rec(2, 20));
    m.insert(1, rec(1, 10));
    assert_eq!(m.len(), 2);
    assert_eq!(m.get(&1), Some(&rec(1, 10)));
    assert_eq!(m.get(&2), Some(&rec(2, 20)));
    assert_eq!(m.get(&7), None);
}

#[test]
fn insert_overwrites_equal_key() {
    let mut m: OrderedMap<u64, Rec> = OrderedMap::new();
    m.insert(5, rec(5, 1));
    m.insert(5, rec(5, 2));
    assert_eq!(m.len(), 1);
    assert_eq!(m.get(&5), Some(&rec(5, 2)));
}

#[test]
fn values_come_out_in_ascending_key_order() {
    let mut m: OrderedMap<u64, Rec> = OrderedMap::new();
    m.insert(30, rec(30, 3));
    m.insert(10, rec(10, 1));
    m.insert(20, rec(20, 2));
    assert_eq!(serialize(&m), vec![rec(10, 1), rec(20, 2), rec(30, 3)]);
}

#[test]
fn value_contract_of_the_record_type() {
    // A conforming value type supplies every required capability.
    let a = rec(1, 2);
    let b = rec(1, 3);
    assert_eq!(a.cmp_val(&b), KeyOrder::Before);
    assert_eq!(b.cmp_val(&a), KeyOrder::After);
    assert_eq!(a.cmp_val(&a), KeyOrder::Same);
    assert!(a.eq_val(&a));
    assert!(!a.eq_val(&b));
    assert_eq!(a.clone_val(), a);
    assert_eq!(Rec::default_val(), rec(0, 0));
    assert_eq!(a.hash_val(), 1 ^ 2);
    assert_eq!(b.hash_val(), 1 ^ 3);
    assert_eq!(a.derive_key(), 1);
    let encoded = a.encode();
    assert_eq!(encoded, vec![1, 2]);
    assert_eq!(Rec::decode(&encoded), Some(a));
    assert_eq!(Rec::decode(&vec![1, 2, 3]), None);
}

#[test]
fn value_contract_of_the_base_integer() {
    let x: u64 = 4;
    let y: u64 = 9;
    assert_eq!(x.cmp_val(&y), KeyOrder::Before);
    assert_eq!(y.cmp_val(&x), KeyOrder::After);
    assert_eq!(x.cmp_val(&x), KeyOrder::Same);
    assert!(x.eq_val(&x));
    assert!(!x.eq_val(&y));
    assert_eq!(x.clone_val(), 4);
    assert_eq!(<u64 as Val>::default_val(), 0);
    assert_eq!(x.hash_val(), 4);
    assert_eq!(x.encode(), 4);
    assert_eq!(u64::decode(&9), Some(9));
}
