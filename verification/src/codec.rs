//! The wire codec for the UDP RPC envelope.
//!
//! Every datagram is one message: a kind byte, the request id, the
//! sender triple, and a kind-specific payload.  The format is
//! self-delimiting within the datagram bound and round-trips every
//! field losslessly: decoding is specified as the exact inverse of
//! encoding, and a proof below states it.
use vstd::prelude::*;
use crate::contact::PeerInfo;
use crate::id::KEY_LEN;
use crate::id::NodeId;
use crate::table::K_PARAM;

verus! {

/// Largest datagram the transport will carry.
pub const BUF_SIZE: usize = 8192;

/// Longest key accepted on the wire.
pub const MAX_KEY: usize = 2048;

/// Longest value accepted on the wire.
pub const MAX_VALUE: usize = 4096;

/// Bytes of the fixed envelope header: kind, request id, sender triple.
pub const HEADER_LEN: usize = 47;

/// Bytes of one encoded peer triple.
pub const PEER_LEN: usize = 38;

/// The mathematical value of a peer triple.
pub struct PeerV {
    pub id: Seq<u8>,
    pub ip: u32,
    pub port: u16,
}

/// The mathematical value of a message payload.
pub enum PayloadV {
    Ping,
    Pong,
    Store { key: Seq<u8>, value: Seq<u8> },
    StoreAck,
    FindNode { target: Seq<u8> },
    FindNodeReply { contacts: Seq<PeerV> },
    FindValue { target: Seq<u8> },
    FindValueReplyValue { value: Seq<u8> },
    FindValueReplyContacts { contacts: Seq<PeerV> },
}

/// The mathematical value of a whole message.
pub struct MessageV {
    pub request_id: u64,
    pub sender: PeerV,
    pub payload: PayloadV,
}

/// A message payload as carried by the node.
pub enum Payload {
    Ping,
    Pong,
    Store { key: Vec<u8>, value: Vec<u8> },
    StoreAck,
    FindNode { target: NodeId },
    FindNodeReply { contacts: Vec<PeerInfo> },
    FindValue { target: NodeId },
    FindValueReplyValue { value: Vec<u8> },
    FindValueReplyContacts { contacts: Vec<PeerInfo> },
}

/// One RPC message: request id for correlation, the sender's triple,
/// and the payload.
pub struct Message {
    pub request_id: u64,
    pub sender: PeerInfo,
    pub payload: Payload,
}

impl PeerInfo {
    /// The mathematical value of this peer triple.
    pub open spec fn pv(&self) -> PeerV {
        PeerV { id: self.id@, ip: self.ip, port: self.port }
    }
}

/// The mathematical values of a list of peer triples.
pub open spec fn peers_v(s: Seq<PeerInfo>) -> Seq<PeerV> {
    Seq::new(s.len(), |i: int| s[i].pv())
}

impl Payload {
    /// The mathematical value of this payload.
    pub open spec fn pay_v(&self) -> PayloadV {
        match self {
            Payload::Ping => PayloadV::Ping,
            Payload::Pong => PayloadV::Pong,
            Payload::Store { key, value } => PayloadV::Store { key: key@, value: value@ },
            Payload::StoreAck => PayloadV::StoreAck,
            Payload::FindNode { target } => PayloadV::FindNode { target: target@ },
            Payload::FindNodeReply { contacts } => PayloadV::FindNodeReply {
                contacts: peers_v(contacts@),
            },
            Payload::FindValue { target } => PayloadV::FindValue { target: target@ },
            Payload::FindValueReplyValue { value } => PayloadV::FindValueReplyValue {
                value: value@,
            },
            Payload::FindValueReplyContacts { contacts } => PayloadV::FindValueReplyContacts {
                contacts: peers_v(contacts@),
            },
        }
    }
}

impl Message {
    /// Whether this message answers a request, rather than making one.
    /// The receive loop hands responses to their waiting correlation
    /// and requests to the engine.
    pub fn is_response(&self) -> (r: bool)
        ensures
            r == (self.payload matches Payload::Pong || self.payload matches Payload::StoreAck
                || self.payload matches Payload::FindNodeReply { .. }
                || self.payload matches Payload::FindValueReplyValue { .. }
                || self.payload matches Payload::FindValueReplyContacts { .. }),
    {
        match &self.payload {
            Payload::Pong => true,
            Payload::StoreAck => true,
            Payload::FindNodeReply { .. } => true,
            Payload::FindValueReplyValue { .. } => true,
            Payload::FindValueReplyContacts { .. } => true,
            _ => false,
        }
    }

    /// The mathematical value of this message.
    pub open spec fn mv(&self) -> MessageV {
        MessageV { request_id: self.request_id, sender: self.sender.pv(), payload: self.payload.pay_v() }
    }

    /// Bounds every encodable message obeys.
    pub open spec fn wf(&self) -> bool {
        wf_message_v(self.mv())
    }
}

/// A peer triple carries a full-length id.
pub open spec fn wf_peer_v(p: PeerV) -> bool {
    p.id.len() == KEY_LEN
}

/// Bounds every encodable payload obeys: full-length ids, keys and
/// values within the wire limits, reply lists capped at `K_PARAM`.
pub open spec fn wf_payload_v(p: PayloadV) -> bool {
    match p {
        PayloadV::Ping => true,
        PayloadV::Pong => true,
        PayloadV::Store { key, value } => key.len() <= MAX_KEY && value.len() <= MAX_VALUE,
        PayloadV::StoreAck => true,
        PayloadV::FindNode { target } => target.len() == KEY_LEN,
        PayloadV::FindNodeReply { contacts } => contacts.len() <= K_PARAM && (forall|i: int|
            0 <= i < contacts.len() ==> wf_peer_v(#[trigger] contacts[i])),
        PayloadV::FindValue { target } => target.len() == KEY_LEN,
        PayloadV::FindValueReplyValue { value } => value.len() <= MAX_VALUE,
        PayloadV::FindValueReplyContacts { contacts } => contacts.len() <= K_PARAM && (forall|
            i: int,
        |
            0 <= i < contacts.len() ==> wf_peer_v(#[trigger] contacts[i])),
    }
}

/// Bounds every encodable message obeys.
pub open spec fn wf_message_v(m: MessageV) -> bool {
    wf_peer_v(m.sender) && wf_payload_v(m.payload)
}

/// A request id's eight bytes, most significant first.
pub open spec fn u64_be(x: u64) -> Seq<u8> {
    seq![
        (x >> 56) as u8,
        (x >> 48) as u8,
        (x >> 40) as u8,
        (x >> 32) as u8,
        (x >> 24) as u8,
        (x >> 16) as u8,
        (x >> 8) as u8,
        x as u8,
    ]
}

/// An address's four bytes, most significant first.
pub open spec fn u32_be(x: u32) -> Seq<u8> {
    seq![(x >> 24) as u8, (x >> 16) as u8, (x >> 8) as u8, x as u8]
}

/// A port's or length's two bytes, most significant first.
pub open spec fn u16_be(x: u16) -> Seq<u8> {
    seq![(x >> 8) as u8, x as u8]
}

/// The value read back from eight big-endian bytes.
pub open spec fn dec_u64(s: Seq<u8>) -> u64 {
    (((s[0] as u64) << 56) | ((s[1] as u64) << 48) | ((s[2] as u64) << 40) | ((s[3] as u64) << 32)
        | ((s[4] as u64) << 24) | ((s[5] as u64) << 16) | ((s[6] as u64) << 8) | (s[7] as u64))
}

/// The value read back from four big-endian bytes.
pub open spec fn dec_u32(s: Seq<u8>) -> u32 {
    (((s[0] as u32) << 24) | ((s[1] as u32) << 16) | ((s[2] as u32) << 8) | (s[3] as u32))
}

/// The value read back from two big-endian bytes.
pub open spec fn dec_u16(s: Seq<u8>) -> u16 {
    (((s[0] as u16) << 8) | (s[1] as u16))
}

/// Reading back the written bytes yields the written value.
pub proof fn lemma_u64_round_trip(x: u64)
    ensures
        dec_u64(u64_be(x)) == x,
{
    assert((((((x >> 56) as u8) as u64) << 56) | ((((x >> 48) as u8) as u64) << 48) | ((((x >> 40)
        as u8) as u64) << 40) | ((((x >> 32) as u8) as u64) << 32) | ((((x >> 24) as u8) as u64)
        << 24) | ((((x >> 16) as u8) as u64) << 16) | ((((x >> 8) as u8) as u64) << 8) | ((x
        as u8) as u64)) == x) by (bit_vector);
}

/// Reading back the written bytes yields the written value.
pub proof fn lemma_u32_round_trip(x: u32)
    ensures
        dec_u32(u32_be(x)) == x,
{
    assert((((((x >> 24) as u8) as u32) << 24) | ((((x >> 16) as u8) as u32) << 16) | ((((x >> 8)
        as u8) as u32) << 8) | ((x as u8) as u32)) == x) by (bit_vector);
}

/// Reading back the written bytes yields the written value.
pub proof fn lemma_u16_round_trip(x: u16)
    ensures
        dec_u16(u16_be(x)) == x,
{
    assert((((((x >> 8) as u8) as u16) << 8) | ((x as u8) as u16)) == x) by (bit_vector);
}

/// One peer triple on the wire: id, address, port.
pub open spec fn enc_peer(p: PeerV) -> Seq<u8> {
    p.id + u32_be(p.ip) + u16_be(p.port)
}

/// A list of peer triples on the wire, in order.
pub open spec fn enc_peers(s: Seq<PeerV>) -> Seq<u8>
    decreases s.len(),
{
    if s.len() == 0 {
        Seq::empty()
    } else {
        enc_peer(s[0]) + enc_peers(s.skip(1))
    }
}

/// The peer triple read back from 38 bytes.
pub open spec fn dec_peer(s: Seq<u8>) -> PeerV {
    PeerV {
        id: s.subrange(0, KEY_LEN as int),
        ip: dec_u32(s.subrange(KEY_LEN as int, KEY_LEN + 4)),
        port: dec_u16(s.subrange(KEY_LEN + 4, KEY_LEN + 6)),
    }
}

/// `n` peer triples read back from the front of `s`.
pub open spec fn dec_peers(s: Seq<u8>, n: int) -> Seq<PeerV>
    decreases n,
{
    if n <= 0 {
        Seq::empty()
    } else {
        seq![dec_peer(s.subrange(0, PEER_LEN as int))] + dec_peers(s.skip(PEER_LEN as int), n - 1)
    }
}

/// The kind byte of each payload.
pub open spec fn kind_byte(p: PayloadV) -> u8 {
    match p {
        PayloadV::Ping => 1,
        PayloadV::Pong => 2,
        PayloadV::Store { .. } => 3,
        PayloadV::StoreAck => 4,
        PayloadV::FindNode { .. } => 5,
        PayloadV::FindNodeReply { .. } => 6,
        PayloadV::FindValue { .. } => 7,
        PayloadV::FindValueReplyValue { .. } => 8,
        PayloadV::FindValueReplyContacts { .. } => 9,
    }
}

/// The kind-specific bytes of each payload.
pub open spec fn enc_payload(p: PayloadV) -> Seq<u8> {
    match p {
        PayloadV::Ping => Seq::empty(),
        PayloadV::Pong => Seq::empty(),
        PayloadV::Store { key, value } => u16_be(key.len() as u16) + key + u16_be(
            value.len() as u16,
        ) + value,
        PayloadV::StoreAck => Seq::empty(),
        PayloadV::FindNode { target } => target,
        PayloadV::FindNodeReply { contacts } => seq![contacts.len() as u8] + enc_peers(contacts),
        PayloadV::FindValue { target } => target,
        PayloadV::FindValueReplyValue { value } => u16_be(value.len() as u16) + value,
        PayloadV::FindValueReplyContacts { contacts } => seq![contacts.len() as u8] + enc_peers(
            contacts,
        ),
    }
}

/// A whole message on the wire: kind byte, request id, sender triple,
/// payload.
pub open spec fn encode_msg(m: MessageV) -> Seq<u8> {
    seq![kind_byte(m.payload)] + u64_be(m.request_id) + enc_peer(m.sender) + enc_payload(m.payload)
}

/// The payload read back from the bytes after the header, given the
/// kind byte; `None` for malformed or trailing bytes.
pub open spec fn decode_payload(kind: u8, rest: Seq<u8>) -> Option<PayloadV> {
    if kind == 1 {
        if rest.len() == 0 {
            Some(PayloadV::Ping)
        } else {
            None
        }
    } else if kind == 2 {
        if rest.len() == 0 {
            Some(PayloadV::Pong)
        } else {
            None
        }
    } else if kind == 3 {
        if rest.len() < 2 {
            None
        } else {
            let klen = dec_u16(rest.subrange(0, 2)) as int;
            if klen > MAX_KEY || rest.len() < 2 + klen + 2 {
                None
            } else {
                let vlen = dec_u16(rest.subrange(2 + klen, 2 + klen + 2)) as int;
                if vlen > MAX_VALUE || rest.len() != 2 + klen + 2 + vlen {
                    None
                } else {
                    Some(
                        PayloadV::Store {
                            key: rest.subrange(2, 2 + klen),
                            value: rest.subrange(2 + klen + 2, 2 + klen + 2 + vlen),
                        },
                    )
                }
            }
        }
    } else if kind == 4 {
        if rest.len() == 0 {
            Some(PayloadV::StoreAck)
        } else {
            None
        }
    } else if kind == 5 {
        if rest.len() == KEY_LEN {
            Some(PayloadV::FindNode { target: rest })
        } else {
            None
        }
    } else if kind == 6 {
        if rest.len() < 1 {
            None
        } else {
            let n = rest[0] as int;
            if n > K_PARAM || rest.len() != 1 + PEER_LEN * n {
                None
            } else {
                Some(PayloadV::FindNodeReply { contacts: dec_peers(rest.skip(1), n) })
            }
        }
    } else if kind == 7 {
        if rest.len() == KEY_LEN {
            Some(PayloadV::FindValue { target: rest })
        } else {
            None
        }
    } else if kind == 8 {
        if rest.len() < 2 {
            None
        } else {
            let vlen = dec_u16(rest.subrange(0, 2)) as int;
            if vlen > MAX_VALUE || rest.len() != 2 + vlen {
                None
            } else {
                Some(PayloadV::FindValueReplyValue { value: rest.subrange(2, 2 + vlen) })
            }
        }
    } else if kind == 9 {
        if rest.len() < 1 {
            None
        } else {
            let n = rest[0] as int;
            if n > K_PARAM || rest.len() != 1 + PEER_LEN * n {
                None
            } else {
                Some(PayloadV::FindValueReplyContacts { contacts: dec_peers(rest.skip(1), n) })
            }
        }
    } else {
        None
    }
}

/// The message read back from a whole datagram; `None` for anything
/// malformed, truncated, or carrying trailing bytes.
pub open spec fn decode_msg(b: Seq<u8>) -> Option<MessageV> {
    if b.len() < HEADER_LEN {
        None
    } else {
        let kind = b[0];
        let rid = dec_u64(b.subrange(1, 9));
        let sender = dec_peer(b.subrange(9, HEADER_LEN as int));
        match decode_payload(kind, b.skip(HEADER_LEN as int)) {
            Some(p) => {
                if kind_byte(p) == kind {
                    Some(MessageV { request_id: rid, sender, payload: p })
                } else {
                    None
                }
            },
            None => None,
        }
    }
}

/// An encoded peer triple takes exactly `PEER_LEN` bytes.
pub proof fn lemma_enc_peer_len(p: PeerV)
    requires
        wf_peer_v(p),
    ensures
        enc_peer(p).len() == PEER_LEN,
{
}

/// Reading back an encoded peer triple yields the triple.
pub proof fn lemma_peer_round_trip(p: PeerV)
    requires
        wf_peer_v(p),
    ensures
        dec_peer(enc_peer(p)) == p,
{
    let e = enc_peer(p);
    assert(e.subrange(0, KEY_LEN as int) =~= p.id);
    assert(e.subrange(KEY_LEN as int, KEY_LEN + 4) =~= u32_be(p.ip));
    assert(e.subrange(KEY_LEN + 4, KEY_LEN + 6) =~= u16_be(p.port));
    lemma_u32_round_trip(p.ip);
    lemma_u16_round_trip(p.port);
}

/// An encoded peer list takes exactly `PEER_LEN` bytes per peer.
pub proof fn lemma_enc_peers_len(s: Seq<PeerV>)
    requires
        forall|i: int| 0 <= i < s.len() ==> wf_peer_v(#[trigger] s[i]),
    ensures
        enc_peers(s).len() == PEER_LEN * s.len(),
    decreases s.len(),
{
    if s.len() > 0 {
        lemma_enc_peer_len(s[0]);
        assert forall|i: int| 0 <= i < s.skip(1).len() implies wf_peer_v(
            #[trigger] s.skip(1)[i],
        ) by {
            assert(s.skip(1)[i] == s[i + 1]);
        }
        lemma_enc_peers_len(s.skip(1));
    }
}

/// Reading back an encoded peer list yields the list.
pub proof fn lemma_peers_round_trip(s: Seq<PeerV>)
    requires
        forall|i: int| 0 <= i < s.len() ==> wf_peer_v(#[trigger] s[i]),
    ensures
        dec_peers(enc_peers(s), s.len() as int) == s,
    decreases s.len(),
{
    if s.len() == 0 {
        assert(dec_peers(enc_peers(s), 0) =~= s);
    } else {
        let e = enc_peers(s);
        lemma_enc_peer_len(s[0]);
        assert forall|i: int| 0 <= i < s.skip(1).len() implies wf_peer_v(
            #[trigger] s.skip(1)[i],
        ) by {
            assert(s.skip(1)[i] == s[i + 1]);
        }
        lemma_enc_peers_len(s.skip(1));
        assert(e.subrange(0, PEER_LEN as int) =~= enc_peer(s[0]));
        assert(e.skip(PEER_LEN as int) =~= enc_peers(s.skip(1)));
        lemma_peer_round_trip(s[0]);
        lemma_peers_round_trip(s.skip(1));
        assert(dec_peers(e, s.len() as int) =~= s);
    }
}

/// Appending one peer appends its encoding.
pub proof fn lemma_enc_peers_push(s: Seq<PeerV>, x: PeerV)
    ensures
        enc_peers(s.push(x)) == enc_peers(s) + enc_peer(x),
    decreases s.len(),
{
    if s.len() == 0 {
        assert(s.push(x)[0] == x);
        assert(s.push(x).skip(1) =~= Seq::<PeerV>::empty());
        assert(enc_peers(s.push(x)) == enc_peer(x) + enc_peers(Seq::<PeerV>::empty()));
        assert(enc_peer(x) + Seq::<u8>::empty() =~= Seq::<u8>::empty() + enc_peer(x));
    } else {
        assert(s.push(x)[0] == s[0]);
        assert(s.push(x).skip(1) =~= s.skip(1).push(x));
        lemma_enc_peers_push(s.skip(1), x);
        assert(enc_peers(s.push(x)) == enc_peer(s[0]) + enc_peers(s.skip(1).push(x)));
        assert(enc_peers(s.push(x)) == enc_peer(s[0]) + (enc_peers(s.skip(1)) + enc_peer(x)));
        assert(enc_peer(s[0]) + (enc_peers(s.skip(1)) + enc_peer(x)) =~= (enc_peer(s[0])
            + enc_peers(s.skip(1))) + enc_peer(x));
    }
}

/// Each peer of a decoded list comes from its own 38-byte block.
pub proof fn lemma_dec_peers_index(s: Seq<u8>, n: int, k: int)
    requires
        0 <= k < n,
        s.len() >= PEER_LEN * n,
    ensures
        dec_peers(s, n).len() == n,
        dec_peers(s, n)[k] == dec_peer(
            s.subrange(PEER_LEN * k, PEER_LEN * k + PEER_LEN as int),
        ),
    decreases n,
{
    lemma_dec_peers_len(s, n);
    if k == 0 {
        assert(s.subrange(0, PEER_LEN as int) =~= s.subrange(0int, PEER_LEN as int));
    } else {
        lemma_dec_peers_index(s.skip(PEER_LEN as int), n - 1, k - 1);
        assert(s.skip(PEER_LEN as int).subrange(
            PEER_LEN * (k - 1),
            PEER_LEN * (k - 1) + PEER_LEN as int,
        ) =~= s.subrange(PEER_LEN * k, PEER_LEN * k + PEER_LEN as int));
    }
}

/// A decoded peer list has the asked-for length.
pub proof fn lemma_dec_peers_len(s: Seq<u8>, n: int)
    requires
        n >= 0,
    ensures
        dec_peers(s, n).len() == n,
    decreases n,
{
    if n > 0 {
        lemma_dec_peers_len(s.skip(PEER_LEN as int), n - 1);
    }
}

/// An encoded payload fits beside the header in one datagram.
pub proof fn lemma_enc_payload_len(p: PayloadV)
    requires
        wf_payload_v(p),
    ensures
        enc_payload(p).len() <= BUF_SIZE - HEADER_LEN,
{
    match p {
        PayloadV::FindNodeReply { contacts } => {
            lemma_enc_peers_len(contacts);
        },
        PayloadV::FindValueReplyContacts { contacts } => {
            lemma_enc_peers_len(contacts);
        },
        _ => {},
    }
}

/// Round-trip law: decoding an encoded message yields the message,
/// for every well-formed message value of every kind.
#[verifier::rlimit(100)]
pub proof fn lemma_message_round_trip(m: MessageV)
    requires
        wf_message_v(m),
    ensures
        decode_msg(encode_msg(m)) == Some(m),
        encode_msg(m).len() <= BUF_SIZE,
{
    let e = encode_msg(m);
    lemma_enc_peer_len(m.sender);
    lemma_enc_payload_len(m.payload);
    assert(e.subrange(1, 9) =~= u64_be(m.request_id));
    assert(e.subrange(9, HEADER_LEN as int) =~= enc_peer(m.sender));
    assert(e.skip(HEADER_LEN as int) =~= enc_payload(m.payload));
    lemma_u64_round_trip(m.request_id);
    lemma_peer_round_trip(m.sender);
    let rest = enc_payload(m.payload);
    match m.payload {
        PayloadV::Ping => {},
        PayloadV::Pong => {},
        PayloadV::StoreAck => {},
        PayloadV::Store { key, value } => {
            let kl = key.len() as int;
            let vl = value.len() as int;
            assert(rest.subrange(0, 2) =~= u16_be(key.len() as u16));
            lemma_u16_round_trip(key.len() as u16);
            assert(dec_u16(rest.subrange(0, 2)) as int == kl);
            assert(rest.subrange(2, 2 + kl) =~= key);
            assert(rest.subrange(2 + kl, 2 + kl + 2) =~= u16_be(value.len() as u16));
            lemma_u16_round_trip(value.len() as u16);
            assert(dec_u16(rest.subrange(2 + kl, 2 + kl + 2)) as int == vl);
            assert(rest.subrange(2 + kl + 2, 2 + kl + 2 + vl) =~= value);
        },
        PayloadV::FindNode { target } => {
            assert(rest =~= target);
        },
        PayloadV::FindValue { target } => {
            assert(rest =~= target);
        },
        PayloadV::FindNodeReply { contacts } => {
            lemma_enc_peers_len(contacts);
            assert(rest[0] == contacts.len() as u8);
            assert(rest[0] as int == contacts.len() as int);
            assert(rest.skip(1) =~= enc_peers(contacts));
            lemma_peers_round_trip(contacts);
        },
        PayloadV::FindValueReplyValue { value } => {
            let vl = value.len() as int;
            assert(rest.subrange(0, 2) =~= u16_be(value.len() as u16));
            lemma_u16_round_trip(value.len() as u16);
            assert(dec_u16(rest.subrange(0, 2)) as int == vl);
            assert(rest.subrange(2, 2 + vl) =~= value);
        },
        PayloadV::FindValueReplyContacts { contacts } => {
            lemma_enc_peers_len(contacts);
            assert(rest[0] == contacts.len() as u8);
            assert(rest[0] as int == contacts.len() as int);
            assert(rest.skip(1) =~= enc_peers(contacts));
            lemma_peers_round_trip(contacts);
        },
    }
}

/// Appends two big-endian bytes.
fn push_u16_be(out: &mut Vec<u8>, x: u16)
    ensures
        final(out)@ == old(out)@ + u16_be(x),
{
    out.push((x >> 8) as u8);
    out.push(x as u8);
    assert(out@ =~= old(out)@ + u16_be(x));
}

/// Appends four big-endian bytes.
fn push_u32_be(out: &mut Vec<u8>, x: u32)
    ensures
        final(out)@ == old(out)@ + u32_be(x),
{
    out.push((x >> 24) as u8);
    out.push((x >> 16) as u8);
    out.push((x >> 8) as u8);
    out.push(x as u8);
    assert(out@ =~= old(out)@ + u32_be(x));
}

/// Appends eight big-endian bytes.
pub(crate) fn push_u64_be(out: &mut Vec<u8>, x: u64)
    ensures
        final(out)@ == old(out)@ + u64_be(x),
{
    out.push((x >> 56) as u8);
    out.push((x >> 48) as u8);
    out.push((x >> 40) as u8);
    out.push((x >> 32) as u8);
    out.push((x >> 24) as u8);
    out.push((x >> 16) as u8);
    out.push((x >> 8) as u8);
    out.push(x as u8);
    assert(out@ =~= old(out)@ + u64_be(x));
}

/// Appends a byte string.
fn push_bytes(out: &mut Vec<u8>, b: &Vec<u8>)
    ensures
        final(out)@ == old(out)@ + b@,
{
    let mut i: usize = 0;
    while i < b.len()
        invariant
            i <= b@.len(),
            out@ == old(out)@ + b@.subrange(0, i as int),
        decreases b@.len() - i,
    {
        out.push(b[i]);
        proof {
            assert(old(out)@ + b@.subrange(0, i as int) + seq![b@[i as int]] =~= old(out)@
                + b@.subrange(0, i + 1));
        }
        i = i + 1;
    }
    proof {
        assert(b@.subrange(0, b@.len() as int) =~= b@);
    }
}

/// Appends one encoded peer triple.
fn push_peer(out: &mut Vec<u8>, p: &PeerInfo)
    requires
        p.wf(),
    ensures
        final(out)@ == old(out)@ + enc_peer(p.pv()),
{
    push_bytes(out, &p.id.bytes);
    push_u32_be(out, p.ip);
    push_u16_be(out, p.port);
    assert(out@ =~= old(out)@ + enc_peer(p.pv()));
}

/// Appends an encoded peer list.
fn push_peers(out: &mut Vec<u8>, contacts: &Vec<PeerInfo>)
    requires
        forall|i: int| 0 <= i < contacts@.len() ==> (#[trigger] contacts@[i]).wf(),
    ensures
        final(out)@ == old(out)@ + enc_peers(peers_v(contacts@)),
{
    proof {
        assert(peers_v(contacts@.take(0int)) =~= Seq::<PeerV>::empty());
        assert(old(out)@ + Seq::<u8>::empty() =~= old(out)@);
    }
    let mut i: usize = 0;
    while i < contacts.len()
        invariant
            i <= contacts@.len(),
            forall|x: int| 0 <= x < contacts@.len() ==> (#[trigger] contacts@[x]).wf(),
            out@ == old(out)@ + enc_peers(peers_v(contacts@.take(i as int))),
        decreases contacts@.len() - i,
    {
        push_peer(out, &contacts[i]);
        proof {
            let ii = i as int;
            assert(peers_v(contacts@.take(ii + 1)) =~= peers_v(contacts@.take(ii)).push(
                contacts@[ii].pv(),
            ));
            lemma_enc_peers_push(peers_v(contacts@.take(ii)), contacts@[ii].pv());
            assert(out@ =~= old(out)@ + enc_peers(peers_v(contacts@.take(ii + 1))));
        }
        i = i + 1;
    }
    proof {
        assert(contacts@.take(contacts@.len() as int) =~= contacts@);
    }
}

/// The kind byte this payload is sent under.
fn kind_of(p: &Payload) -> (r: u8)
    ensures
        r == kind_byte(p.pay_v()),
{
    match p {
        Payload::Ping => 1,
        Payload::Pong => 2,
        Payload::Store { .. } => 3,
        Payload::StoreAck => 4,
        Payload::FindNode { .. } => 5,
        Payload::FindNodeReply { .. } => 6,
        Payload::FindValue { .. } => 7,
        Payload::FindValueReplyValue { .. } => 8,
        Payload::FindValueReplyContacts { .. } => 9,
    }
}

/// Serializes a message into one datagram of at most `BUF_SIZE` bytes.
pub fn encode(m: &Message) -> (r: Vec<u8>)
    requires
        m.wf(),
    ensures
        r@ == encode_msg(m.mv()),
        r@.len() <= BUF_SIZE,
{
    let mut out: Vec<u8> = Vec::new();
    let kind = kind_of(&m.payload);
    out.push(kind);
    push_u64_be(&mut out, m.request_id);
    push_peer(&mut out, &m.sender);
    let ghost header = out@;
    match &m.payload {
        Payload::Ping => {},
        Payload::Pong => {},
        Payload::StoreAck => {},
        Payload::Store { key, value } => {
            push_u16_be(&mut out, key.len() as u16);
            push_bytes(&mut out, key);
            push_u16_be(&mut out, value.len() as u16);
            push_bytes(&mut out, value);
        },
        Payload::FindNode { target } => {
            push_bytes(&mut out, &target.bytes);
        },
        Payload::FindValue { target } => {
            push_bytes(&mut out, &target.bytes);
        },
        Payload::FindNodeReply { contacts } => {
            out.push(contacts.len() as u8);
            proof {
                assert forall|x: int| 0 <= x < contacts@.len() implies (
                #[trigger] contacts@[x]).wf() by {
                    assert(wf_peer_v(peers_v(contacts@)[x]));
                }
            }
            push_peers(&mut out, contacts);
        },
        Payload::FindValueReplyContacts { contacts } => {
            out.push(contacts.len() as u8);
            proof {
                assert forall|x: int| 0 <= x < contacts@.len() implies (
                #[trigger] contacts@[x]).wf() by {
                    assert(wf_peer_v(peers_v(contacts@)[x]));
                }
            }
            push_peers(&mut out, contacts);
        },
        Payload::FindValueReplyValue { value } => {
            push_u16_be(&mut out, value.len() as u16);
            push_bytes(&mut out, value);
        },
    }
    proof {
        assert(out@ =~= encode_msg(m.mv()));
        lemma_message_round_trip(m.mv());
    }
    out
}

/// Reads two big-endian bytes at `off`.
fn get_u16(b: &Vec<u8>, off: usize) -> (r: u16)
    requires
        off + 2 <= b@.len(),
    ensures
        r == dec_u16(b@.subrange(off as int, off + 2)),
{
    let n = b.len();
    ((b[off] as u16) << 8) | (b[off + 1] as u16)
}

/// Reads four big-endian bytes at `off`.
fn get_u32(b: &Vec<u8>, off: usize) -> (r: u32)
    requires
        off + 4 <= b@.len(),
    ensures
        r == dec_u32(b@.subrange(off as int, off + 4)),
{
    let n = b.len();
    ((b[off] as u32) << 24) | ((b[off + 1] as u32) << 16) | ((b[off + 2] as u32) << 8) | (b[off
        + 3] as u32)
}

/// Reads eight big-endian bytes at `off`.
fn get_u64(b: &Vec<u8>, off: usize) -> (r: u64)
    requires
        off + 8 <= b@.len(),
    ensures
        r == dec_u64(b@.subrange(off as int, off + 8)),
{
    let n = b.len();
    ((b[off] as u64) << 56) | ((b[off + 1] as u64) << 48) | ((b[off + 2] as u64) << 40) | ((b[off
        + 3] as u64) << 32) | ((b[off + 4] as u64) << 24) | ((b[off + 5] as u64) << 16) | ((b[off
        + 6] as u64) << 8) | (b[off + 7] as u64)
}

/// Copies `len` bytes starting at `off`.
pub(crate) fn get_bytes(b: &Vec<u8>, off: usize, len: usize) -> (r: Vec<u8>)
    requires
        off + len <= b@.len(),
    ensures
        r@ == b@.subrange(off as int, off + len),
{
    let n = b.len();
    let mut out: Vec<u8> = Vec::new();
    let mut i: usize = 0;
    while i < len
        invariant
            n == b@.len(),
            off + len <= b@.len(),
            i <= len,
            out@ == b@.subrange(off as int, off + i),
        decreases len - i,
    {
        out.push(b[off + i]);
        proof {
            assert(b@.subrange(off as int, off + i) + seq![b@[off + i]] =~= b@.subrange(
                off as int,
                off + i + 1,
            ));
        }
        i = i + 1;
    }
    out
}

/// Parses `n` peer triples starting at `off`.
fn get_peers(b: &Vec<u8>, off: usize, n: usize) -> (r: Vec<PeerInfo>)
    requires
        n <= K_PARAM,
        off + PEER_LEN * n <= b@.len(),
    ensures
        r@.len() == n,
        peers_v(r@) == dec_peers(b@.skip(off as int), n as int),
        forall|i: int| 0 <= i < r@.len() ==> (#[trigger] r@[i]).wf(),
{
    let ghost bb = b@.skip(off as int);
    let blen = b.len();
    let mut r: Vec<PeerInfo> = Vec::new();
    let mut k: usize = 0;
    while k < n
        invariant
            n <= K_PARAM,
            off + PEER_LEN * n <= b@.len(),
            blen == b@.len(),
            bb == b@.skip(off as int),
            k <= n,
            r@.len() == k,
            forall|x: int|
                0 <= x < k ==> (#[trigger] r@[x]).pv() == dec_peers(bb, n as int)[x] && r@[x].wf(),
        decreases n - k,
    {
        let base = off + PEER_LEN * k;
        let id_bytes = get_bytes(b, base, KEY_LEN);
        let ip = get_u32(b, base + KEY_LEN);
        let port = get_u16(b, base + KEY_LEN + 4);
        let p = PeerInfo { id: NodeId { bytes: id_bytes }, ip, port };
        proof {
            let kk = k as int;
            let lo = off + PEER_LEN * kk;
            lemma_dec_peers_index(bb, n as int, kk);
            let sk = bb.subrange(PEER_LEN * kk, PEER_LEN * kk + PEER_LEN as int);
            assert(sk =~= b@.subrange(lo, lo + PEER_LEN as int));
            assert(sk.subrange(0, KEY_LEN as int) =~= b@.subrange(lo, lo + KEY_LEN as int));
            assert(sk.subrange(KEY_LEN as int, KEY_LEN + 4) =~= b@.subrange(
                lo + KEY_LEN as int,
                lo + KEY_LEN + 4,
            ));
            assert(sk.subrange(KEY_LEN + 4, KEY_LEN + 6) =~= b@.subrange(
                lo + KEY_LEN + 4,
                lo + KEY_LEN + 6,
            ));
            assert(p.pv() == dec_peer(sk));
            assert(p.pv() == dec_peers(bb, n as int)[kk]);
        }
        r.push(p);
        k = k + 1;
    }
    proof {
        lemma_dec_peers_len(bb, n as int);
        assert(peers_v(r@) =~= dec_peers(bb, n as int));
    }
    r
}

/// Parses one datagram; `None` exactly for what the wire format calls
/// malformed: short buffers, unknown kinds, bad lengths, oversized
/// fields, or trailing bytes.
#[verifier::rlimit(100)]
pub fn decode(b: &Vec<u8>) -> (r: Option<Message>)
    ensures
        match r {
            Some(m) => m.wf() && decode_msg(b@) == Some(m.mv()),
            None => decode_msg(b@) is None,
        },
{
    let n = b.len();
    if n < HEADER_LEN {
        return None;
    }
    let kind = b[0];
    let rid = get_u64(b, 1);
    let sender_id = get_bytes(b, 9, KEY_LEN);
    let sip = get_u32(b, 9 + KEY_LEN);
    let sport = get_u16(b, 9 + KEY_LEN + 4);
    let sender = PeerInfo { id: NodeId { bytes: sender_id }, ip: sip, port: sport };
    proof {
        let hdr = b@.subrange(9, HEADER_LEN as int);
        assert(hdr.subrange(0, KEY_LEN as int) =~= b@.subrange(9, 9 + KEY_LEN as int));
        assert(hdr.subrange(KEY_LEN as int, KEY_LEN + 4) =~= b@.subrange(
            9 + KEY_LEN as int,
            9 + KEY_LEN + 4,
        ));
        assert(hdr.subrange(KEY_LEN + 4, KEY_LEN + 6) =~= b@.subrange(
            9 + KEY_LEN + 4,
            9 + KEY_LEN + 6,
        ));
        assert(sender.pv() == dec_peer(hdr));
    }
    let ghost rest = b@.skip(HEADER_LEN as int);
    let rest_len = n - HEADER_LEN;
    proof {
        assert(rest.len() == rest_len);
    }
    if kind == 1 {
        if rest_len == 0 {
            let m = Message { request_id: rid, sender, payload: Payload::Ping };
            proof {
                assert(decode_msg(b@) == Some(m.mv()));
            }
            Some(m)
        } else {
            None
        }
    } else if kind == 2 {
        if rest_len == 0 {
            let m = Message { request_id: rid, sender, payload: Payload::Pong };
            proof {
                assert(decode_msg(b@) == Some(m.mv()));
            }
            Some(m)
        } else {
            None
        }
    } else if kind == 4 {
        if rest_len == 0 {
            let m = Message { request_id: rid, sender, payload: Payload::StoreAck };
            proof {
                assert(decode_msg(b@) == Some(m.mv()));
            }
            Some(m)
        } else {
            None
        }
    } else if kind == 3 {
        if rest_len < 2 {
            return None;
        }
        let klen = get_u16(b, HEADER_LEN) as usize;
        proof {
            assert(rest.subrange(0, 2) =~= b@.subrange(HEADER_LEN as int, HEADER_LEN + 2));
        }
        if klen > MAX_KEY {
            return None;
        }
        if rest_len < 2 + klen + 2 {
            return None;
        }
        let vlen = get_u16(b, HEADER_LEN + 2 + klen) as usize;
        proof {
            assert(rest.subrange(2 + klen, 2 + klen + 2) =~= b@.subrange(
                HEADER_LEN + 2 + klen,
                HEADER_LEN + 2 + klen + 2,
            ));
        }
        if vlen > MAX_VALUE {
            return None;
        }
        if rest_len != 2 + klen + 2 + vlen {
            return None;
        }
        let key = get_bytes(b, HEADER_LEN + 2, klen);
        let value = get_bytes(b, HEADER_LEN + 2 + klen + 2, vlen);
        let m = Message { request_id: rid, sender, payload: Payload::Store { key, value } };
        proof {
            assert(rest.subrange(2, 2 + klen) =~= b@.subrange(
                HEADER_LEN + 2,
                HEADER_LEN + 2 + klen,
            ));
            assert(rest.subrange(2 + klen + 2, 2 + klen + 2 + vlen) =~= b@.subrange(
                HEADER_LEN + 2 + klen + 2,
                HEADER_LEN + 2 + klen + 2 + vlen,
            ));
            assert(decode_msg(b@) == Some(m.mv()));
        }
        Some(m)
    } else if kind == 5 {
        if rest_len != KEY_LEN {
            return None;
        }
        let target = get_bytes(b, HEADER_LEN, KEY_LEN);
        let m = Message {
            request_id: rid,
            sender,
            payload: Payload::FindNode { target: NodeId { bytes: target } },
        };
        proof {
            assert(rest =~= b@.subrange(HEADER_LEN as int, HEADER_LEN + KEY_LEN as int));
            assert(decode_msg(b@) == Some(m.mv()));
        }
        Some(m)
    } else if kind == 7 {
        if rest_len != KEY_LEN {
            return None;
        }
        let target = get_bytes(b, HEADER_LEN, KEY_LEN);
        let m = Message {
            request_id: rid,
            sender,
            payload: Payload::FindValue { target: NodeId { bytes: target } },
        };
        proof {
            assert(rest =~= b@.subrange(HEADER_LEN as int, HEADER_LEN + KEY_LEN as int));
            assert(decode_msg(b@) == Some(m.mv()));
        }
        Some(m)
    } else if kind == 6 {
        if rest_len < 1 {
            return None;
        }
        let cnt = b[HEADER_LEN] as usize;
        if cnt > K_PARAM {
            return None;
        }
        if rest_len != 1 + PEER_LEN * cnt {
            return None;
        }
        let contacts = get_peers(b, HEADER_LEN + 1, cnt);
        let m = Message { request_id: rid, sender, payload: Payload::FindNodeReply { contacts } };
        proof {
            assert(rest.skip(1) =~= b@.skip(HEADER_LEN + 1));
            assert(decode_msg(b@) == Some(m.mv()));
        }
        Some(m)
    } else if kind == 8 {
        if rest_len < 2 {
            return None;
        }
        let vlen = get_u16(b, HEADER_LEN) as usize;
        proof {
            assert(rest.subrange(0, 2) =~= b@.subrange(HEADER_LEN as int, HEADER_LEN + 2));
        }
        if vlen > MAX_VALUE {
            return None;
        }
        if rest_len != 2 + vlen {
            return None;
        }
        let value = get_bytes(b, HEADER_LEN + 2, vlen);
        let m = Message {
            request_id: rid,
            sender,
            payload: Payload::FindValueReplyValue { value },
        };
        proof {
            assert(rest.subrange(2, 2 + vlen) =~= b@.subrange(
                HEADER_LEN + 2,
                HEADER_LEN + 2 + vlen,
            ));
            assert(decode_msg(b@) == Some(m.mv()));
        }
        Some(m)
    } else if kind == 9 {
        if rest_len < 1 {
            return None;
        }
        let cnt = b[HEADER_LEN] as usize;
        if cnt > K_PARAM {
            return None;
        }
        if rest_len != 1 + PEER_LEN * cnt {
            return None;
        }
        let contacts = get_peers(b, HEADER_LEN + 1, cnt);
        let m = Message {
            request_id: rid,
            sender,
            payload: Payload::FindValueReplyContacts { contacts },
        };
        proof {
            assert(rest.skip(1) =~= b@.skip(HEADER_LEN + 1));
            assert(decode_msg(b@) == Some(m.mv()));
        }
        Some(m)
    } else {
        None
    }
}

} // verus!
