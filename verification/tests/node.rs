use dht_core::codec::{Message, Payload};
use dht_core::contact::PeerInfo;
use dht_core::id::{NodeId, KEY_LEN};
use dht_core::protocol::Protocol;

fn id_from(bytes: &[u8]) -> NodeId {
    let mut v = vec![0u8; KEY_LEN];
    for (i, b) in bytes.iter().enumerate() {
        v[i] = *b;
    }
    NodeId::from_bytes(v).unwrap()
}

fn node(first: u8, port: u16) -> Protocol {
    Protocol::new(id_from(&[first]), 0x7f000001, port)
}

#[test]
fn lone_node_stores_and_retrieves_locally() {
    // a node alone in its network serves its own puts and gets
    let mut a = node(1, 8001);
    assert!(a.start_lookup(&id_from(&[9]), false).candidates.is_empty());
    assert!(a.put_string(&"k1".to_string(), &"v1".to_string()));
    assert_eq!(a.get_string(&"k1".to_string()), Some("v1".to_string()));
    assert_eq!(a.get_string(&"other".to_string()), None);
}

#[test]
fn ping_gets_pong_and_registers_sender() {
    let mut a = node(1, 8001);
    let b = node(2, 8002);
    let ping = b.make_ping(77);
    let out = a.handle_message(&ping);
    let reply = out.reply.expect("a ping earns a pong");
    assert_eq!(reply.request_id, 77);
    assert!(matches!(reply.payload, Payload::Pong));
    // the sender is now a contact of a
    let known = a.closest_peers(&id_from(&[2]));
    assert_eq!(known.len(), 1);
    assert!(known[0].id.equals(&b.self_info.id));
}

#[test]
fn store_request_is_acknowledged_and_served() {
    let mut a = node(1, 8001);
    let b = node(2, 8002);
    let store = b.make_store(5, &b"k2".to_vec(), &b"v2".to_vec());
    let out = a.handle_message(&store);
    assert!(matches!(out.reply.unwrap().payload, Payload::StoreAck));
    // the value is found under the key's id
    assert_eq!(a.get_local(&b"k2".to_vec()), Some(b"v2".to_vec()));
    let target = dht_core::keyhash::hash_key(&b"k2".to_vec());
    let find = b.make_find_value(6, &target);
    let out = a.handle_message(&find);
    match out.reply.unwrap().payload {
        Payload::FindValueReplyValue { value } => assert_eq!(value, b"v2".to_vec()),
        _ => panic!("expected the value back"),
    }
}

#[test]
fn find_value_for_unknown_key_returns_contacts() {
    let mut a = node(1, 8001);
    let b = node(2, 8002);
    a.handle_message(&b.make_ping(1));
    let target = dht_core::keyhash::hash_key(&b"missing".to_vec());
    let out = a.handle_message(&b.make_find_value(2, &target));
    match out.reply.unwrap().payload {
        Payload::FindValueReplyContacts { contacts } => {
            assert_eq!(contacts.len(), 1);
            assert!(contacts[0].id.equals(&b.self_info.id));
        }
        _ => panic!("expected contacts"),
    }
}

#[test]
fn find_node_returns_closest_sorted() {
    let mut a = node(1, 8001);
    for i in 2..8u8 {
        let other = node(i, 8000 + i as u16);
        a.handle_message(&other.make_ping(i as u64));
    }
    let asker = node(100, 9100);
    let target = id_from(&[6]);
    let out = a.handle_message(&asker.make_find_node(9, &target));
    match out.reply.unwrap().payload {
        Payload::FindNodeReply { contacts } => {
            assert!(!contacts.is_empty());
            // nearest first; the exact match leads
            assert!(contacts[0].id.equals(&id_from(&[6])));
            for w in contacts.windows(2) {
                assert!(!dht_core::id::closer_to(&target, &w[1].id, &w[0].id));
            }
        }
        _ => panic!("expected contacts"),
    }
}

#[test]
fn unanswered_ping_changes_nothing() {
    // the scenario behind the timeout rule: a peer that never answers
    // is not inserted
    let mut a = node(1, 8001);
    let silent = PeerInfo::new(id_from(&[200]), 0x7f000001, 9999);
    let probe = a.ping_result(&silent, false);
    assert!(probe.is_none());
    assert!(a.closest_peers(&id_from(&[200])).is_empty());
    // whereas an answered ping registers the peer
    let probe = a.ping_result(&silent, true);
    assert!(probe.is_none());
    assert_eq!(a.closest_peers(&id_from(&[200])).len(), 1);
}

#[test]
fn responses_produce_no_reply() {
    let mut a = node(1, 8001);
    let b = node(2, 8002);
    let pong = Message { request_id: 1, sender: b.self_info.duplicate(), payload: Payload::Pong };
    assert!(a.handle_message(&pong).reply.is_none());
    // but still count as a liveness sighting
    assert_eq!(a.closest_peers(&id_from(&[2])).len(), 1);
}

#[test]
fn oversized_value_is_refused_locally() {
    let mut a = node(3, 8003);
    let huge = "x".repeat(dht_core::codec::MAX_VALUE + 1);
    assert!(!a.put_string(&"k".to_string(), &huge));
    assert_eq!(a.get_string(&"k".to_string()), None);
    let edge = "y".repeat(dht_core::codec::MAX_VALUE);
    assert!(a.put_string(&"k".to_string(), &edge));
    assert_eq!(a.get_string(&"k".to_string()), Some(edge));
}
