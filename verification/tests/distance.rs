use dht_core::id::{bucket_index, bytes_eq, closer_to, distance, NodeId, KEY_LEN};

fn id_from(bytes: &[u8]) -> NodeId {
    let mut v = vec![0u8; KEY_LEN];
    for (i, b) in bytes.iter().enumerate() {
        v[i] = *b;
    }
    NodeId::from_bytes(v).unwrap()
}

#[test]
fn distance_to_self_is_zero() {
    let a = id_from(&[1, 2, 3, 4, 255]);
    let d = distance(&a, &a);
    assert!(d.iter().all(|b| *b == 0));
}

#[test]
fn distance_is_symmetric() {
    let a = id_from(&[9, 0, 77]);
    let b = id_from(&[200, 13]);
    assert!(bytes_eq(&distance(&a, &b), &distance(&b, &a)));
}

#[test]
fn distance_zero_only_between_equal_ids() {
    let a = id_from(&[5, 5, 5]);
    let b = id_from(&[5, 5, 6]);
    let d = distance(&a, &b);
    assert!(!d.iter().all(|x| *x == 0));
    assert!(!a.equals(&b));
    let e = id_from(&[5, 5, 5]);
    assert!(a.equals(&e));
    assert!(distance(&a, &e).iter().all(|x| *x == 0));
}

#[test]
fn distance_exact_value() {
    let a = id_from(&[0b1100_0000]);
    let b = id_from(&[0b1010_0000]);
    let d = distance(&a, &b);
    assert_eq!(d[0], 0b0110_0000);
    assert!(d[1..].iter().all(|x| *x == 0));
}

#[test]
fn bucket_index_of_self_is_none() {
    let a = id_from(&[42, 1]);
    assert!(bucket_index(&a, &a).is_none());
}

#[test]
fn bucket_index_most_significant_bit() {
    let zero = id_from(&[]);
    // top bit of the first byte: bit 255
    let top = id_from(&[0x80]);
    assert_eq!(bucket_index(&zero, &top), Some(255));
    // lowest bit of the last byte: bit 0
    let mut v = vec![0u8; KEY_LEN];
    v[KEY_LEN - 1] = 1;
    let low = NodeId::from_bytes(v).unwrap();
    assert_eq!(bucket_index(&zero, &low), Some(0));
    // 0x10 in the second byte: bit 8 * 30 + 4 = 244
    let mid = id_from(&[0, 0x10]);
    assert_eq!(bucket_index(&zero, &mid), Some(244));
}

#[test]
fn closer_to_orders_by_xor_distance() {
    let target = id_from(&[0]);
    let near = id_from(&[0, 0, 1]);
    let far = id_from(&[4]);
    assert!(closer_to(&target, &near, &far));
    assert!(!closer_to(&target, &far, &near));
    assert!(!closer_to(&target, &near, &near));
}

#[test]
fn id_needs_exactly_thirty_two_bytes() {
    assert!(NodeId::from_bytes(vec![0u8; KEY_LEN]).is_some());
    assert!(NodeId::from_bytes(vec![0u8; KEY_LEN - 1]).is_none());
    assert!(NodeId::from_bytes(vec![0u8; KEY_LEN + 1]).is_none());
    assert!(NodeId::from_bytes(Vec::new()).is_none());
}
