//! The protocol engine: one node's identity, routing table, and local
//! value store, with the pure halves of every operation.
//!
//! The engine never touches the network.  It builds outgoing messages,
//! answers inbound requests, and digests RPC results that the caller
//! obtained; the caller performs the sends, the waits, and the
//! timeouts, and feeds every outcome back as a plain value.
use vstd::prelude::*;
use crate::codec::Message;
use crate::codec::Payload;
use crate::contact::Contact;
use crate::contact::PeerInfo;
use crate::id::KEY_LEN;
use crate::id::NodeId;
use crate::id::dist_le;
use crate::id::dist_lt;
use crate::keyhash::key_id;
use crate::lookup::LookupState;
use crate::store::KvStore;
use crate::table::InsertOutcome;
use crate::table::K_PARAM;
use crate::table::N_BUCKETS;
use crate::table::RoutingTable;
use crate::table::bucket_has_id;

verus! {

/// Milliseconds a caller should wait for a correlated response before
/// treating the peer as unresponsive for that call.
pub const TIMEOUT_MS: u64 = 5000;

/// A probe the caller owes the table: ping the stale contact
/// out-of-band and settle with `RoutingTable::resolve_eviction`.
pub struct ProbeRequest {
    pub stale: PeerInfo,
    pub newcomer: PeerInfo,
}

/// What handling one inbound message yields: at most one reply to send
/// back, and at most one eviction probe to run out-of-band.
pub struct HandleOutcome {
    pub reply: Option<Message>,
    pub probe: Option<ProbeRequest>,
}

/// Every stored value fits back into a wire reply.
pub open spec fn values_bounded(m: Map<Seq<u8>, Seq<u8>>) -> bool {
    forall|k: Seq<u8>| m.dom().contains(k) ==> (#[trigger] m[k]).len() <= crate::codec::MAX_VALUE
}

/// One node's protocol state.
pub struct Protocol {
    pub self_info: PeerInfo,
    pub table: RoutingTable,
    pub store: KvStore,
}

impl Protocol {
    /// The engine invariant: a well-formed identity, table, and store,
    /// with the table keyed by this node's own id.
    pub open spec fn wf(&self) -> bool {
        &&& self.self_info.wf()
        &&& self.table.wf()
        &&& self.store.wf()
        &&& self.table.self_id@ == self.self_info.id@
        &&& values_bounded(self.store@)
    }

    /// A fresh node: empty table, empty store.
    pub fn new(id: NodeId, ip: u32, port: u16) -> (r: Protocol)
        requires
            id.wf(),
        ensures
            r.wf(),
            r.self_info.id@ == id@,
            r.self_info.ip == ip,
            r.self_info.port == port,
            r.store@ == Map::<Seq<u8>, Seq<u8>>::empty(),
            forall|i: int| 0 <= i < N_BUCKETS ==> (#[trigger] r.table.spec_bucket(i)).len() == 0,
    {
        let table = RoutingTable::new(id.duplicate());
        Protocol { self_info: PeerInfo::new(id, ip, port), table, store: KvStore::new() }
    }

    /// Builds the outgoing `PING` for a liveness check.
    pub fn make_ping(&self, request_id: u64) -> (m: Message)
        requires
            self.wf(),
        ensures
            m.wf(),
            m.request_id == request_id,
            m.sender.pv() == self.self_info.pv(),
            m.payload is Ping,
    {
        Message { request_id, sender: self.self_info.duplicate(), payload: Payload::Ping }
    }

    /// Builds the outgoing `FIND_NODE` query for a target id.
    pub fn make_find_node(&self, request_id: u64, target: &NodeId) -> (m: Message)
        requires
            self.wf(),
            target.wf(),
        ensures
            m.wf(),
            m.request_id == request_id,
            m.sender.pv() == self.self_info.pv(),
            m.payload matches Payload::FindNode { target: t } && t@ == target@,
    {
        Message {
            request_id,
            sender: self.self_info.duplicate(),
            payload: Payload::FindNode { target: target.duplicate() },
        }
    }

    /// Builds the outgoing `FIND_VALUE` query for a key's id.
    pub fn make_find_value(&self, request_id: u64, target: &NodeId) -> (m: Message)
        requires
            self.wf(),
            target.wf(),
        ensures
            m.wf(),
            m.request_id == request_id,
            m.sender.pv() == self.self_info.pv(),
            m.payload matches Payload::FindValue { target: t } && t@ == target@,
    {
        Message {
            request_id,
            sender: self.self_info.duplicate(),
            payload: Payload::FindValue { target: target.duplicate() },
        }
    }

    /// Builds the outgoing `STORE` request carrying one pair.
    pub fn make_store(&self, request_id: u64, key: &Vec<u8>, value: &Vec<u8>) -> (m: Message)
        requires
            self.wf(),
            key@.len() <= crate::codec::MAX_KEY,
            value@.len() <= crate::codec::MAX_VALUE,
        ensures
            m.wf(),
            m.request_id == request_id,
            m.sender.pv() == self.self_info.pv(),
            m.payload matches Payload::Store { key: k, value: v } && k@ == key@ && v@ == value@,
    {
        Message {
            request_id,
            sender: self.self_info.duplicate(),
            payload: Payload::Store {
                key: crate::id::copy_bytes(key),
                value: crate::id::copy_bytes(value),
            },
        }
    }

    /// Records a peer sighting and turns a full bucket into a probe for
    /// the caller.
    fn observe(&mut self, peer: &PeerInfo) -> (r: Option<ProbeRequest>)
        requires
            old(self).wf(),
            peer.wf(),
        ensures
            final(self).wf(),
            final(self).self_info == old(self).self_info,
            final(self).store == old(self).store,
            match r {
                Some(p) => ({
                    let bix = crate::id::bucket_of(old(self).self_info.id@, peer.id@);
                    let ob = old(self).table.spec_bucket(bix);
                    &&& p.stale.wf() && p.newcomer.wf() && p.newcomer.id@ == peer.id@
                    &&& p.stale.id@ != p.newcomer.id@
                    &&& final(self).table.buckets@ == old(self).table.buckets@
                    &&& ob.len() == K_PARAM && !bucket_has_id(ob, peer.id@)
                    &&& p.stale.id@ == ob[0].id@ && p.stale.ip == ob[0].ip && p.stale.port
                        == ob[0].port
                }),
                None => peer.id@ != old(self).self_info.id@ ==> final(self).table.spec_contains_id(
                    peer.id@,
                ),
            },
    {
        let outcome = self.table.insert_or_refresh(peer);
        match outcome {
            InsertOutcome::BucketFull(lru) => {
                proof {
                    let bix = crate::id::bucket_of(old(self).table.self_id@, peer.id@);
                    let ob = old(self).table.spec_bucket(bix);
                    crate::id::lemma_bucket_of_range(old(self).table.self_id@, peer.id@);
                    assert(old(self).table.bucket_ok(bix));
                    assert(ob[0].id@ != peer.id@) by {
                        if ob[0].id@ == peer.id@ {
                            assert(bucket_has_id(ob, peer.id@));
                        }
                    }
                }
                Some(ProbeRequest { stale: lru, newcomer: peer.duplicate() })
            },
            InsertOutcome::SelfEntry => None,
            InsertOutcome::Refreshed => {
                proof {
                    self.lemma_present_after_upsert(*old(self), peer.id@);
                }
                None
            },
            InsertOutcome::Inserted => {
                proof {
                    self.lemma_present_after_upsert(*old(self), peer.id@);
                }
                None
            },
        }
    }

    /// After a refresh or an insert, the peer's id is in the table.
    proof fn lemma_present_after_upsert(&self, pre: Protocol, id: Seq<u8>)
        requires
            pre.wf(),
            self.table.wf(),
            id.len() == KEY_LEN,
            id != pre.self_info.id@,
            self.table.self_id@ == pre.table.self_id@,
            self.table.buckets@.len() == N_BUCKETS,
            ({
                let bix = crate::id::bucket_of(pre.table.self_id@, id);
                let nb = self.table.spec_bucket(bix);
                nb.len() > 0 && nb.last().id@ == id
            }),
        ensures
            self.table.spec_contains_id(id),
    {
        let bix = crate::id::bucket_of(pre.table.self_id@, id);
        crate::id::lemma_bucket_of_range(pre.table.self_id@, id);
        let nb = self.table.spec_bucket(bix);
        assert(nb[nb.len() - 1].id@ == id);
        assert(bucket_has_id(nb, id));
    }

    /// Digests the outcome of a liveness ping: on a pong the peer joins
    /// or refreshes the table; on a timeout the table is untouched.
    pub fn ping_result(&mut self, peer: &PeerInfo, got_pong: bool) -> (r: Option<ProbeRequest>)
        requires
            old(self).wf(),
            peer.wf(),
        ensures
            final(self).wf(),
            final(self).self_info == old(self).self_info,
            final(self).store == old(self).store,
            !got_pong ==> final(self).table == old(self).table && r is None,
            got_pong ==> match r {
                Some(p) => ({
                    let bix = crate::id::bucket_of(old(self).self_info.id@, peer.id@);
                    let ob = old(self).table.spec_bucket(bix);
                    &&& p.stale.wf() && p.newcomer.wf() && p.newcomer.id@ == peer.id@
                    &&& p.stale.id@ != p.newcomer.id@
                    &&& final(self).table.buckets@ == old(self).table.buckets@
                    &&& ob.len() == K_PARAM && !bucket_has_id(ob, peer.id@)
                    &&& p.stale.id@ == ob[0].id@ && p.stale.ip == ob[0].ip && p.stale.port
                        == ob[0].port
                }),
                None => peer.id@ != old(self).self_info.id@ ==> final(self).table.spec_contains_id(
                    peer.id@,
                ),
            },
    {
        if got_pong {
            self.observe(peer)
        } else {
            None
        }
    }

    /// Answers one inbound message.
    ///
    /// Every message is evidence of liveness, so the sender is recorded
    /// first.  Requests get their reply: `PING` a `PONG`; `STORE` an
    /// upsert under the key's id and a `STORE_ACK`; `FIND_NODE` the
    /// closest contacts to the target; `FIND_VALUE` the stored value,
    /// or the closest contacts when this node does not hold it.
    /// Responses produce no reply: their correlation is the caller's.
    pub fn handle_message(&mut self, msg: &Message) -> (r: HandleOutcome)
        requires
            old(self).wf(),
            msg.wf(),
        ensures
            final(self).wf(),
            final(self).self_info == old(self).self_info,
            (match r.probe {
                Some(p) => ({
                    let bix = crate::id::bucket_of(old(self).self_info.id@, msg.sender.id@);
                    let ob = old(self).table.spec_bucket(bix);
                    &&& p.stale.wf() && p.newcomer.wf() && p.newcomer.id@ == msg.sender.id@
                    &&& p.stale.id@ != p.newcomer.id@
                    &&& final(self).table.buckets@ == old(self).table.buckets@
                    &&& ob.len() == K_PARAM && !bucket_has_id(ob, msg.sender.id@)
                    &&& p.stale.id@ == ob[0].id@ && p.stale.ip == ob[0].ip && p.stale.port
                        == ob[0].port
                }),
                None => msg.sender.id@ != old(self).self_info.id@ ==> final(self).table.spec_contains_id(
                    msg.sender.id@,
                ),
            }),
            match msg.payload {
                Payload::Ping => {
                    &&& final(self).store == old(self).store
                    &&& r.reply matches Some(m2) && m2.wf() && m2.request_id == msg.request_id
                        && m2.sender.pv() == old(self).self_info.pv() && m2.payload is Pong
                },
                Payload::Store { key, value } => {
                    &&& final(self).store@ == old(self).store@.insert(key_id(key@), value@)
                    &&& r.reply matches Some(m2) && m2.wf() && m2.request_id == msg.request_id
                        && m2.sender.pv() == old(self).self_info.pv() && m2.payload is StoreAck
                },
                Payload::FindNode { target } => {
                    &&& final(self).store == old(self).store
                    &&& r.reply matches Some(m2) && m2.wf() && m2.request_id == msg.request_id
                        && m2.sender.pv() == old(self).self_info.pv() && (
                    m2.payload matches Payload::FindNodeReply { contacts } && contacts@.len()
                        <= K_PARAM && contacts@.len() == (if K_PARAM as int <= final(self).table.spec_total() {
                        K_PARAM as int
                    } else {
                        final(self).table.spec_total()
                    }) && (forall|a: int, b: int|
                        0 <= a < b < contacts@.len() ==> dist_le(
                            target@,
                            contacts@[a].id@,
                            contacts@[b].id@,
                        )) && (forall|k: int|
                        0 <= k < contacts@.len() ==> final(self).table.spec_contains_id(
                            (#[trigger] contacts@[k]).id@,
                        )))
                },
                Payload::FindValue { target } => {
                    &&& final(self).store == old(self).store
                    &&& r.reply matches Some(m2) && m2.wf() && m2.request_id == msg.request_id
                        && m2.sender.pv() == old(self).self_info.pv()
                    &&& old(self).store@.contains_key(target@) ==> (
                    r.reply matches Some(m2) && m2.payload matches Payload::FindValueReplyValue {
                        value,
                    } && value@ == old(self).store@[target@])
                    &&& !old(self).store@.contains_key(target@) ==> (
                    r.reply matches Some(m2)
                        && m2.payload matches Payload::FindValueReplyContacts { contacts }
                        && contacts@.len() <= K_PARAM && (forall|k: int|
                        0 <= k < contacts@.len() ==> final(self).table.spec_contains_id(
                            (#[trigger] contacts@[k]).id@,
                        )))
                },
                _ => {
                    &&& final(self).store == old(self).store
                    &&& r.reply is None
                },
            },
    {
        let probe = self.observe(&msg.sender);
        let reply: Option<Message> = match &msg.payload {
            Payload::Ping => Some(
                Message {
                    request_id: msg.request_id,
                    sender: self.self_info.duplicate(),
                    payload: Payload::Pong,
                },
            ),
            Payload::Store { key, value } => {
                let kid = crate::keyhash::hash_key(key);
                self.store.put_local(kid.bytes, crate::id::copy_bytes(value));
                Some(
                    Message {
                        request_id: msg.request_id,
                        sender: self.self_info.duplicate(),
                        payload: Payload::StoreAck,
                    },
                )
            },
            Payload::FindNode { target } => {
                let contacts = self.closest_peers(target);
                Some(
                    Message {
                        request_id: msg.request_id,
                        sender: self.self_info.duplicate(),
                        payload: Payload::FindNodeReply { contacts },
                    },
                )
            },
            Payload::FindValue { target } => {
                match self.store.get_local(&target.bytes) {
                    Some(value) => Some(
                        Message {
                            request_id: msg.request_id,
                            sender: self.self_info.duplicate(),
                            payload: Payload::FindValueReplyValue { value },
                        },
                    ),
                    None => {
                        let contacts = self.closest_peers(target);
                        Some(
                            Message {
                                request_id: msg.request_id,
                                sender: self.self_info.duplicate(),
                                payload: Payload::FindValueReplyContacts { contacts },
                            },
                        )
                    },
                }
            },
            _ => None,
        };
        HandleOutcome { reply, probe }
    }

    /// The up-to-`K_PARAM` known peers closest to a target, nearest
    /// first, as wire triples.
    pub fn closest_peers(&self, target: &NodeId) -> (r: Vec<PeerInfo>)
        requires
            self.wf(),
            target.wf(),
        ensures
            r@.len() <= K_PARAM,
            r@.len() == if K_PARAM as int <= self.table.spec_total() {
                K_PARAM as int
            } else {
                self.table.spec_total()
            },
            forall|k: int| 0 <= k < r@.len() ==> (#[trigger] r@[k]).wf(),
            forall|k1: int, k2: int| 0 <= k1 < k2 < r@.len() ==> r@[k1].id@ != r@[k2].id@,
            forall|a: int, b: int|
                0 <= a < b < r@.len() ==> dist_le(target@, r@[a].id@, r@[b].id@),
            forall|k: int|
                0 <= k < r@.len() ==> self.table.spec_contains_id((#[trigger] r@[k]).id@),
            // no peer left out of the reply is closer than a peer in it
            forall|c: Contact, k: int|
                #![trigger self.table.spec_has_contact(c), r@[k]]
                self.table.spec_has_contact(c) && !crate::lookup::peers_have_id(r@, c.id@) && 0 <= k
                    < r@.len() ==> dist_le(target@, r@[k].id@, c.id@),
    {
        let contacts = self.table.closest_contacts(target, K_PARAM);
        let mut r: Vec<PeerInfo> = Vec::new();
        let mut i: usize = 0;
        while i < contacts.len()
            invariant
                self.wf(),
                target@.len() == KEY_LEN,
                i <= contacts@.len(),
                r@.len() == i,
                forall|k: int| 0 <= k < contacts@.len() ==> self.table.spec_has_contact(
                    #[trigger] contacts@[k],
                ),
                forall|a: int, b: int|
                    0 <= a < b < contacts@.len() ==> dist_le(
                        target@,
                        contacts@[a].id@,
                        contacts@[b].id@,
                    ),
                forall|k1: int, k2: int|
                    0 <= k1 < k2 < contacts@.len() ==> contacts@[k1].id@ != contacts@[k2].id@,
                forall|k: int|
                    0 <= k < i ==> (#[trigger] r@[k]).id@ == contacts@[k].id@ && r@[k].ip
                        == contacts@[k].ip && r@[k].port == contacts@[k].port,
                forall|k: int| 0 <= k < i ==> (#[trigger] r@[k]).wf(),
            decreases contacts@.len() - i,
        {
            proof {
                assert(self.table.spec_has_contact(contacts@[i as int]));
                self.lemma_has_contact_contains(contacts@[i as int]);
            }
            r.push(contacts[i].to_peer());
            i = i + 1;
        }
        proof {
            assert forall|k: int| 0 <= k < r@.len() implies self.table.spec_contains_id(
                (#[trigger] r@[k]).id@,
            ) by {
                assert(self.table.spec_has_contact(contacts@[k]));
                self.lemma_has_contact_contains(contacts@[k]);
                assert(r@[k].id@ == contacts@[k].id@);
            }
            assert forall|c: Contact, k: int|
                #![trigger self.table.spec_has_contact(c), r@[k]]
                self.table.spec_has_contact(c) && !crate::lookup::peers_have_id(r@, c.id@) && 0 <= k
                    < r@.len() implies dist_le(target@, r@[k].id@, c.id@) by {
                assert(!crate::table::seq_has_id(contacts@, c.id@)) by {
                    if crate::table::seq_has_id(contacts@, c.id@) {
                        let x = choose|x: int|
                            0 <= x < contacts@.len() && (#[trigger] contacts@[x]).id@ == c.id@;
                        assert(r@[x].id@ == c.id@);
                        assert(crate::lookup::peers_have_id(r@, c.id@));
                    }
                }
                assert(dist_le(target@, contacts@[k].id@, c.id@));
            }
        }
        r
    }

    /// A contact held field-for-field is held by id, with a full-length id.
    proof fn lemma_has_contact_contains(&self, c: Contact)
        requires
            self.table.wf(),
            self.table.spec_has_contact(c),
        ensures
            self.table.spec_contains_id(c.id@),
            c.id@.len() == KEY_LEN,
    {
        let i = choose|i: int|
            0 <= i < self.table.buckets@.len() && crate::table::seq_has_contact(
                #[trigger] self.table.spec_bucket(i),
                c,
            );
        let k = choose|k: int|
            0 <= k < self.table.spec_bucket(i).len() && crate::table::same_contact(
                self.table.spec_bucket(i)[k],
                c,
            );
        assert(self.table.spec_bucket(i)[k].id@ == c.id@);
        assert(bucket_has_id(self.table.spec_bucket(i), c.id@));
        assert(self.table.bucket_ok(i));
    }

    /// Starts an iterative lookup, seeded with this node's closest
    /// known contacts to the target.
    pub fn start_lookup(&self, target: &NodeId, want_value: bool) -> (r: LookupState)
        requires
            self.wf(),
            target.wf(),
        ensures
            r.wf(),
            r.target@ == target@,
            r.want_value == want_value,
            r.queried@.len() == 0,
            r.closing == false,
            // the seeds are the table's closest contacts: every one is a
            // real table entry, they come nearest first, and there are
            // min(K_PARAM, total) of them
            r.candidates@.len() == if K_PARAM as int <= self.table.spec_total() {
                K_PARAM as int
            } else {
                self.table.spec_total()
            },
            forall|k: int|
                0 <= k < r.candidates@.len() ==> self.table.spec_contains_id(
                    (#[trigger] r.candidates@[k]).id@,
                ),
            forall|a: int, b: int|
                0 <= a < b < r.candidates@.len() ==> dist_le(
                    target@,
                    r.candidates@[a].id@,
                    r.candidates@[b].id@,
                ),
    {
        let seeds = self.table.closest_contacts(target, K_PARAM);
        proof {
            assert forall|k: int| 0 <= k < seeds@.len() implies (#[trigger] seeds@[k].id@).len()
                == KEY_LEN by {
                self.lemma_has_contact_contains(seeds@[k]);
            }
        }
        let st = LookupState::new(target.duplicate(), want_value, &seeds);
        proof {
            assert forall|k: int| 0 <= k < st.candidates@.len() implies self.table.spec_contains_id(
                (#[trigger] st.candidates@[k]).id@,
            ) by {
                assert(st.candidates@[k].id@ == seeds@[k].id@);
                self.lemma_has_contact_contains(seeds@[k]);
            }
            assert forall|a: int, b: int| 0 <= a < b < st.candidates@.len() implies dist_le(
                target@,
                st.candidates@[a].id@,
                st.candidates@[b].id@,
            ) by {
                assert(st.candidates@[a].id@ == seeds@[a].id@);
                assert(st.candidates@[b].id@ == seeds@[b].id@);
            }
        }
        st
    }

    /// Whether this node itself belongs among the `K_PARAM` closest to
    /// the target, given the closest peers a lookup discovered, sorted
    /// nearest first: true when the list is short of `K_PARAM`, or when
    /// this node is strictly closer than the list's farthest entry.
    pub fn self_among_closest(&self, target: &NodeId, closest: &Vec<PeerInfo>) -> (r: bool)
        requires
            self.wf(),
            target.wf(),
            forall|k: int| 0 <= k < closest@.len() ==> (#[trigger] closest@[k]).wf(),
        ensures
            r == (closest@.len() < K_PARAM || dist_lt(
                target@,
                self.self_info.id@,
                closest@[closest@.len() - 1].id@,
            )),
    {
        if closest.len() < K_PARAM {
            true
        } else {
            crate::id::closer_to(target, &self.self_info.id, &closest[closest.len() - 1].id)
        }
    }

    /// Stores a pair under the key's id in this node's own store.
    pub fn put_local(&mut self, key: &Vec<u8>, value: Vec<u8>)
        requires
            old(self).wf(),
            value@.len() <= crate::codec::MAX_VALUE,
        ensures
            final(self).wf(),
            final(self).self_info == old(self).self_info,
            final(self).table == old(self).table,
            final(self).store@ == old(self).store@.insert(key_id(key@), value@),
    {
        let kid = crate::keyhash::hash_key(key);
        self.store.put_local(kid.bytes, value);
    }

    /// Looks a key up in this node's own store.
    pub fn get_local(&self, key: &Vec<u8>) -> (r: Option<Vec<u8>>)
        requires
            self.wf(),
        ensures
            match r {
                Some(v) => self.store@.contains_key(key_id(key@)) && v@ == self.store@[key_id(
                    key@,
                )],
                None => !self.store@.contains_key(key_id(key@)),
            },
    {
        let kid = crate::keyhash::hash_key(key);
        self.store.get_local(&kid.bytes)
    }

    /// Stores a string pair in this node's own store, the path `put`
    /// takes when this node is among the closest to the key.  Fails
    /// only on a value too long for a wire reply, leaving the store
    /// unchanged.
    pub fn put_string(&mut self, key: &String, value: &String) -> (r: bool)
        requires
            old(self).wf(),
        ensures
            final(self).wf(),
            final(self).self_info == old(self).self_info,
            final(self).table == old(self).table,
            r == (vstd::utf8::encode_utf8(value@).len() <= crate::codec::MAX_VALUE),
            r ==> final(self).store@ == old(self).store@.insert(
                key_id(vstd::utf8::encode_utf8(key@)),
                vstd::utf8::encode_utf8(value@),
            ),
            !r ==> final(self).store == old(self).store,
    {
        let kb = crate::text::string_to_bytes(key);
        let vb = crate::text::string_to_bytes(value);
        if vb.len() <= crate::codec::MAX_VALUE {
            self.put_local(&kb, vb);
            true
        } else {
            false
        }
    }

    /// Reads a string pair back from this node's own store, the fast
    /// path of `get`.  Returns the stored text exactly when the key is
    /// present and its bytes decode as text.
    pub fn get_string(&self, key: &String) -> (r: Option<String>)
        requires
            self.wf(),
        ensures
            ({
                let k = key_id(vstd::utf8::encode_utf8(key@));
                match r {
                    Some(s) => self.store@.contains_key(k) && vstd::utf8::valid_utf8(
                        self.store@[k],
                    ) && s@ == vstd::utf8::decode_utf8(self.store@[k]),
                    None => !self.store@.contains_key(k) || !vstd::utf8::valid_utf8(
                        self.store@[k],
                    ),
                }
            }),
    {
        let kb = crate::text::string_to_bytes(key);
        match self.get_local(&kb) {
            Some(v) => crate::text::string_from_bytes(v),
            None => None,
        }
    }
}

/// Store-and-retrieve law for the local path: after a string pair is
/// stored, the key is present and its bytes decode back to exactly the
/// stored text, in any store state.
pub proof fn lemma_local_store_round_trip(
    m: Map<Seq<u8>, Seq<u8>>,
    key: Seq<char>,
    value: Seq<char>,
)
    ensures
        ({
            let k = key_id(vstd::utf8::encode_utf8(key));
            let m2 = m.insert(k, vstd::utf8::encode_utf8(value));
            m2.contains_key(k) && vstd::utf8::valid_utf8(m2[k]) && vstd::utf8::decode_utf8(m2[k])
                == value
        }),
{
    vstd::utf8::encode_utf8_valid_utf8(value);
    vstd::utf8::encode_utf8_decode_utf8(value);
}

} // verus!
