//! Whole-protocol runs over a simulated transport: the tests play the
//! network, delivering each built message to its engine by hand.
use dht_core::codec::Payload;
use dht_core::contact::PeerInfo;
use dht_core::id::{closer_to, NodeId, KEY_LEN};
use dht_core::keyhash::hash_key;
use dht_core::lookup::ALPHA;
use dht_core::protocol::Protocol;
use dht_core::table::K_PARAM;

fn id_from(bytes: &[u8]) -> NodeId {
    let mut v = vec![0u8; KEY_LEN];
    for (i, b) in bytes.iter().enumerate() {
        v[i] = *b;
    }
    NodeId::from_bytes(v).unwrap()
}

fn node(first: u8, port: u16) -> Protocol {
    Protocol::new(id_from(&[first]), 0x7f000001, port)
}

fn index_of(net: &Vec<Protocol>, id: &NodeId) -> Option<usize> {
    net.iter().position(|n| n.self_info.id.equals(id))
}

/// One iterative lookup, the test acting as the transport; returns the
/// closest discovered peers, nearest first.
fn sim_lookup(net: &mut Vec<Protocol>, a: usize, target: &NodeId) -> Vec<PeerInfo> {
    let mut st = net[a].start_lookup(target, false);
    let mut seen: Vec<PeerInfo> = Vec::new();
    loop {
        let batch = st.next_batch(st.next_width());
        if batch.is_empty() {
            break;
        }
        let mut progress = false;
        for p in batch {
            let Some(idx) = index_of(net, &p.id) else { continue };
            let query = net[a].make_find_node(1, target);
            let out = net[idx].handle_message(&query);
            match out.reply.unwrap().payload {
                Payload::FindNodeReply { contacts } => {
                    for c in &contacts {
                        if st.update_best(c) {
                            progress = true;
                        }
                    }
                    st.on_contacts(&contacts);
                    // a responding contact feeds the table
                    net[a].ping_result(&p, true);
                    seen.push(p);
                }
                _ => panic!("expected contacts"),
            }
        }
        if st.round_done(progress) {
            break;
        }
    }
    // nearest first
    seen.sort_by(|x, y| {
        if closer_to(target, &x.id, &y.id) {
            std::cmp::Ordering::Less
        } else if closer_to(target, &y.id, &x.id) {
            std::cmp::Ordering::Greater
        } else {
            std::cmp::Ordering::Equal
        }
    });
    seen
}

fn sim_join(net: &mut Vec<Protocol>, a: usize, bootstrap: usize) {
    // ping the bootstrap contact, inserting it on success
    let b_info = net[bootstrap].self_info.duplicate();
    let ping = net[a].make_ping(1);
    let out = net[bootstrap].handle_message(&ping);
    assert!(matches!(out.reply.unwrap().payload, Payload::Pong));
    net[a].ping_result(&b_info, true);
    // then walk towards the own id to learn the neighbourhood
    let self_id = net[a].self_info.id.duplicate();
    sim_lookup(net, a, &self_id);
}

fn sim_put(net: &mut Vec<Protocol>, a: usize, key: &str, value: &str) {
    let kb = key.as_bytes().to_vec();
    let vb = value.as_bytes().to_vec();
    let target = hash_key(&kb);
    let closest = sim_lookup(net, a, &target);
    for p in closest.iter().take(K_PARAM) {
        let Some(idx) = index_of(net, &p.id) else { continue };
        let store = net[a].make_store(2, &kb, &vb);
        let out = net[idx].handle_message(&store);
        assert!(matches!(out.reply.unwrap().payload, Payload::StoreAck));
    }
    let shortlist: Vec<PeerInfo> = closest.iter().take(K_PARAM).map(|p| p.duplicate()).collect();
    if net[a].self_among_closest(&target, &shortlist) {
        net[a].put_local(&kb, vb);
    }
}

fn sim_get(net: &mut Vec<Protocol>, a: usize, key: &str) -> Option<String> {
    let kb = key.as_bytes().to_vec();
    if let Some(v) = net[a].get_local(&kb) {
        return String::from_utf8(v).ok();
    }
    let target = hash_key(&kb);
    let mut st = net[a].start_lookup(&target, true);
    loop {
        let batch = st.next_batch(st.next_width());
        if batch.is_empty() {
            return None;
        }
        let mut progress = false;
        for p in batch {
            let Some(idx) = index_of(net, &p.id) else { continue };
            let query = net[a].make_find_value(3, &target);
            let out = net[idx].handle_message(&query);
            match out.reply.unwrap().payload {
                Payload::FindValueReplyValue { value } => {
                    return String::from_utf8(value).ok();
                }
                Payload::FindValueReplyContacts { contacts } => {
                    for c in &contacts {
                        if st.update_best(c) {
                            progress = true;
                        }
                    }
                    st.on_contacts(&contacts);
                }
                _ => panic!("expected a find-value reply"),
            }
        }
        if st.round_done(progress) {
            return None;
        }
    }
}

#[test]
fn two_nodes_replicate_a_pair() {
    // node a bootstraps from node b, stores a pair, and b serves it
    let mut net = vec![node(10, 8010), node(200, 8200)];
    sim_join(&mut net, 0, 1);
    sim_put(&mut net, 0, "k2", "v2");
    assert_eq!(sim_get(&mut net, 1, "k2"), Some("v2".to_string()));
    // and the same with the roles reversed
    let mut net = vec![node(200, 8200), node(10, 8010)];
    sim_join(&mut net, 0, 1);
    sim_put(&mut net, 0, "k2", "v2");
    assert_eq!(sim_get(&mut net, 1, "k2"), Some("v2".to_string()));
}

#[test]
fn lookup_converges_and_never_regresses() {
    // a dozen nodes spread over the id space, each bootstrapped from
    // the first
    let firsts: Vec<u8> = vec![1, 20, 40, 60, 80, 100, 120, 140, 170, 200, 230, 250];
    let mut net: Vec<Protocol> = firsts
        .iter()
        .enumerate()
        .map(|(i, f)| node(*f, 8000 + i as u16))
        .collect();
    for i in 1..net.len() {
        sim_join(&mut net, i, 0);
    }
    let target = id_from(&[141]);
    // the lookup terminates (sim_lookup returns) and ends at least as
    // close as the best first-round candidate
    let mut st = net[3].start_lookup(&target, false);
    let first_batch = st.next_batch(ALPHA);
    assert!(!first_batch.is_empty());
    let round_one_best = first_batch[0].duplicate();
    let found = sim_lookup(&mut net, 3, &target);
    assert!(!found.is_empty());
    assert!(!closer_to(&target, &round_one_best.id, &found[0].id));
    // the closest node to 141 in the network is 140
    assert!(found[0].id.equals(&id_from(&[140])));
}

#[test]
fn a_small_network_serves_every_pair() {
    let firsts: Vec<u8> = vec![3, 30, 90, 150, 210, 240];
    let mut net: Vec<Protocol> = firsts
        .iter()
        .enumerate()
        .map(|(i, f)| node(*f, 8000 + i as u16))
        .collect();
    for i in 1..net.len() {
        sim_join(&mut net, i, 0);
    }
    for i in 0..net.len() {
        sim_put(&mut net, i, &format!("key_{}", i), &format!("value_{}", i));
    }
    for i in 0..net.len() {
        assert_eq!(
            sim_get(&mut net, i, &format!("key_{}", i)),
            Some(format!("value_{}", i))
        );
    }
}

#[test]
fn lookup_stops_one_round_after_stalling() {
    let mut net = vec![node(10, 8010), node(200, 8200)];
    sim_join(&mut net, 0, 1);
    let target = id_from(&[7]);
    let mut st = net[0].start_lookup(&target, false);
    // a round with progress keeps the lookup open at ALPHA width
    assert_eq!(st.next_width(), ALPHA);
    assert!(!st.round_done(true));
    assert_eq!(st.next_width(), ALPHA);
    // the first stalled round starts the closing round, wide open
    assert!(!st.round_done(false));
    assert_eq!(st.next_width(), dht_core::table::K_PARAM);
    // and after the closing round the lookup stops, progress or not
    assert!(st.round_done(true));
}
