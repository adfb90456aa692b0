use dht_core::contact::PeerInfo;
use dht_core::id::{NodeId, KEY_LEN};
use dht_core::table::{InsertOutcome, RoutingTable, K_PARAM};

fn id_from(bytes: &[u8]) -> NodeId {
    let mut v = vec![0u8; KEY_LEN];
    for (i, b) in bytes.iter().enumerate() {
        v[i] = *b;
    }
    NodeId::from_bytes(v).unwrap()
}

fn peer(first: u8, second: u8, port: u16) -> PeerInfo {
    PeerInfo::new(id_from(&[first, second]), 0x7f000001, port)
}

/// Ids starting 0x80.. all land in bucket 255 relative to the zero id.
fn bucket_peer(i: u8) -> PeerInfo {
    peer(0x80, i, 9000 + i as u16)
}

#[test]
fn insert_then_refresh_keeps_one_entry() {
    let mut t = RoutingTable::new(id_from(&[]));
    let p = bucket_peer(1);
    assert!(matches!(t.insert_or_refresh(&p), InsertOutcome::Inserted));
    assert!(matches!(t.insert_or_refresh(&p), InsertOutcome::Refreshed));
    let all = t.closest_contacts(&id_from(&[]), 100);
    assert_eq!(all.len(), 1);
}

#[test]
fn own_id_never_enters_the_table() {
    let self_id = id_from(&[7]);
    let mut t = RoutingTable::new(id_from(&[7]));
    let me = PeerInfo::new(self_id, 1, 2);
    assert!(matches!(t.insert_or_refresh(&me), InsertOutcome::SelfEntry));
    assert_eq!(t.closest_contacts(&id_from(&[]), 100).len(), 0);
}

#[test]
fn bucket_capacity_holds_under_many_inserts() {
    let mut t = RoutingTable::new(id_from(&[]));
    // 40 distinct ids, all in bucket 255
    for i in 0..40u8 {
        t.insert_or_refresh(&bucket_peer(i));
    }
    let all = t.closest_contacts(&id_from(&[]), 1000);
    assert_eq!(all.len(), K_PARAM);
    // no id twice
    for a in 0..all.len() {
        for b in (a + 1)..all.len() {
            assert!(!all[a].id.equals(&all[b].id));
        }
    }
}

#[test]
fn full_bucket_reports_least_recently_seen() {
    let mut t = RoutingTable::new(id_from(&[]));
    for i in 0..K_PARAM as u8 {
        assert!(matches!(t.insert_or_refresh(&bucket_peer(i)), InsertOutcome::Inserted));
    }
    // refresh the oldest so the second-oldest becomes least recently seen
    t.insert_or_refresh(&bucket_peer(0));
    match t.insert_or_refresh(&bucket_peer(200)) {
        InsertOutcome::BucketFull(lru) => {
            assert!(lru.id.equals(&bucket_peer(1).id));
        }
        _ => panic!("expected a full bucket"),
    }
}

#[test]
fn eviction_replaces_unresponsive_contact() {
    let mut t = RoutingTable::new(id_from(&[]));
    for i in 0..K_PARAM as u8 {
        t.insert_or_refresh(&bucket_peer(i));
    }
    let newcomer = bucket_peer(100);
    let lru = match t.insert_or_refresh(&newcomer) {
        InsertOutcome::BucketFull(lru) => lru,
        _ => panic!("expected a full bucket"),
    };
    assert!(lru.id.equals(&bucket_peer(0).id));
    // the probe timed out: the stale contact leaves, the newcomer enters
    t.resolve_eviction(&lru, &newcomer, false);
    let all = t.closest_contacts(&id_from(&[]), 1000);
    assert_eq!(all.len(), K_PARAM);
    assert!(all.iter().any(|c| c.id.equals(&newcomer.id)));
    assert!(!all.iter().any(|c| c.id.equals(&lru.id)));
}

#[test]
fn eviction_keeps_responsive_contact() {
    let mut t = RoutingTable::new(id_from(&[]));
    for i in 0..K_PARAM as u8 {
        t.insert_or_refresh(&bucket_peer(i));
    }
    let newcomer = bucket_peer(100);
    let lru = match t.insert_or_refresh(&newcomer) {
        InsertOutcome::BucketFull(lru) => lru,
        _ => panic!("expected a full bucket"),
    };
    // the probe answered: the existing contact wins, the newcomer is dropped
    t.resolve_eviction(&lru, &newcomer, true);
    let all = t.closest_contacts(&id_from(&[]), 1000);
    assert_eq!(all.len(), K_PARAM);
    assert!(all.iter().any(|c| c.id.equals(&lru.id)));
    assert!(!all.iter().any(|c| c.id.equals(&newcomer.id)));
    // and it moved to the most-recently-seen slot: the next overflow
    // probes someone else
    match t.insert_or_refresh(&bucket_peer(101)) {
        InsertOutcome::BucketFull(next_lru) => {
            assert!(!next_lru.id.equals(&lru.id));
        }
        _ => panic!("expected a full bucket"),
    }
}

#[test]
fn remove_drops_the_contact() {
    let mut t = RoutingTable::new(id_from(&[]));
    let p = bucket_peer(3);
    t.insert_or_refresh(&p);
    assert!(t.remove(&p.id));
    assert!(!t.remove(&p.id));
    assert_eq!(t.closest_contacts(&id_from(&[]), 10).len(), 0);
}

#[test]
fn closest_contacts_sorted_and_truncated() {
    let self_id = id_from(&[0xff]);
    let mut t = RoutingTable::new(id_from(&[0xff]));
    let _ = self_id;
    for i in 1..30u8 {
        t.insert_or_refresh(&peer(i, 0, 8000 + i as u16));
    }
    let target = id_from(&[4]);
    let got = t.closest_contacts(&target, 5);
    assert_eq!(got.len(), 5);
    // sorted by ascending XOR distance to the target
    for w in got.windows(2) {
        assert!(!closer(&target, &w[1].id, &w[0].id) || ids_eq(&w[0].id, &w[1].id));
    }
    // the closest overall is the exact match
    assert!(got[0].id.equals(&id_from(&[4])));
}

fn closer(t: &NodeId, a: &NodeId, b: &NodeId) -> bool {
    dht_core::id::closer_to(t, a, b)
}

fn ids_eq(a: &NodeId, b: &NodeId) -> bool {
    a.equals(b)
}
