use arraymap_codec::{deserialize, from_values, serialize, CodecError, OrderedMap, Rec, Val};

fn rec(key: u64, tag: u64) -> Rec {
    Rec { key, tag }
}

fn repr(fields: &[u64]) -> Vec<u64> {
    fields.to_vec()
}

#[test]
fn round_trip_two_entries() {
    let mut m: OrderedMap<u64, Rec> = OrderedMap::new();
    m.insert(1, rec(1, 10));
    m.insert(2, rec(2, 20));

    let values = serialize(&m);
    assert_eq!(values, vec![rec(1, 10), rec(2, 20)]);

    let reprs: Vec<Vec<u64>> = values.iter().map(|v| v.encode()).collect();
    let back = deserialize::<u64, Rec>(&reprs).expect("all elements decode");

    assert_eq!(back.len(), 2);
    assert_eq!(back.get(&1), Some(&rec(1, 10)));
    assert_eq!(back.get(&2), Some(&rec(2, 20)));
    assert_eq!(back.get(&3), None);
}

#[test]
fn round_trip_after_overwrites() {
    let mut m: OrderedMap<u64, Rec> = OrderedMap::new();
    m.insert(9, rec(9, 1));
    m.insert(4, rec(4, 2));
    m.insert(9, rec(9, 3));

    let reprs: Vec<Vec<u64>> = serialize(&m).iter().map(|v| v.encode()).collect();
    let back = deserialize::<u64, Rec>(&reprs).expect("all elements decode");

    assert_eq!(back.len(), 2);
    assert_eq!(back.get(&4), Some(&rec(4, 2)));
    assert_eq!(back.get(&9), Some(&rec(9, 3)));
}

#[test]
fn order_independence_with_distinct_keys() {
    let forwards = vec![repr(&[1, 10]), repr(&[2, 20]), repr(&[3, 30])];
    let backwards = vec![repr(&[3, 30]), repr(&[1, 10]), repr(&[2, 20])];

    let a = deserialize::<u64, Rec>(&forwards).expect("all elements decode");
    let b = deserialize::<u64, Rec>(&backwards).expect("all elements decode");

    assert_eq!(a.len(), b.len());
    for k in 1..=3u64 {
        assert_eq!(a.get(&k), b.get(&k));
        assert_eq!(a.get(&k), Some(&rec(k, 10 * k)));
    }
}

#[test]
fn last_write_wins_on_key_collision() {
    // Two values derive the same key; the later one in sequence order
    // must silently win.
    let reprs = vec![repr(&[5, 1]), repr(&[5, 2])];
    let m = deserialize::<u64, Rec>(&reprs).expect("all elements decode");

    assert_eq!(m.len(), 1);
    assert_eq!(m.get(&5), Some(&rec(5, 2)));
}

#[test]
fn empty_map_serializes_to_empty_sequence() {
    let m: OrderedMap<u64, Rec> = OrderedMap::new();
    let values = serialize(&m);
    assert!(values.is_empty());
}

#[test]
fn empty_sequence_deserializes_to_empty_map() {
    let reprs: Vec<Vec<u64>> = Vec::new();
    let m = deserialize::<u64, Rec>(&reprs).expect("empty input always decodes");
    assert_eq!(m.len(), 0);
    assert_eq!(m.get(&0), None);
}

#[test]
fn malformed_element_aborts_deserialization() {
    // The second representation has the wrong arity, so the whole call
    // fails and no partial map is handed out.
    let reprs = vec![repr(&[1, 10]), repr(&[2, 20, 30])];
    let r = deserialize::<u64, Rec>(&reprs);
    assert!(matches!(r, Err(CodecError::MalformedValue)));
}

#[test]
fn malformed_single_element() {
    let reprs = vec![repr(&[])];
    let r = deserialize::<u64, Rec>(&reprs);
    assert!(matches!(r, Err(CodecError::MalformedValue)));
}

#[test]
fn from_values_rebuilds_with_derived_keys() {
    let m = from_values::<u64, Rec>(vec![rec(3, 33), rec(1, 11)]);
    assert_eq!(m.len(), 2);
    assert_eq!(m.get(&1), Some(&rec(1, 11)));
    assert_eq!(m.get(&3), Some(&rec(3, 33)));
}
