//! The decision core of the peer-discovery loop.
//!
//! Discovery itself is an outside collaborator: it finds candidate
//! peers and raises events.  Everything here is the pure half: which
//! actions each event calls for, and the tiny talk-protocol the nodes
//! use to exchange their peer counts.  The caller performs the pings,
//! the puts, and the responses.
use vstd::prelude::*;
use vstd::utf8::encode_utf8;
use vstd::utf8::valid_utf8;

verus! {

/// The byte that separates the two fields of a peer report.
pub const REPORT_SEP: u8 = 124;

/// Which kind of socket the node binds.
pub enum SocketKind {
    Ip4,
    Ip6,
    Ds,
}

impl SocketKind {
    /// The textual name of this kind.
    pub fn as_str(&self) -> (r: &'static str)
        ensures
            match self {
                SocketKind::Ip4 => r@ == "ip4"@,
                SocketKind::Ip6 => r@ == "ip6"@,
                SocketKind::Ds => r@ == "ds"@,
            },
    {
        match self {
            SocketKind::Ip4 => "ip4",
            SocketKind::Ip6 => "ip6",
            SocketKind::Ds => "ds",
        }
    }

    /// Parses a textual kind; rejects everything else.
    pub fn from_str(s: &str) -> (r: Result<SocketKind, &'static str>)
        ensures
            match r {
                Ok(k) => (s@ == "ip4"@ && k is Ip4) || (s@ == "ip6"@ && k is Ip6) || (s@ == "ds"@
                    && k is Ds),
                Err(_) => s@ != "ip4"@ && s@ != "ip6"@ && s@ != "ds"@,
            },
    {
        if str_eq(s, "ip4") {
            Ok(SocketKind::Ip4)
        } else if str_eq(s, "ip6") {
            Ok(SocketKind::Ip6)
        } else if str_eq(s, "ds") {
            Ok(SocketKind::Ds)
        } else {
            Err("bad kind")
        }
    }
}

/// Compares two strings by their UTF-8 bytes; equal bytes mean equal
/// strings, since UTF-8 decoding undoes encoding.
pub fn str_eq(a: &str, b: &str) -> (r: bool)
    ensures
        r == (a@ == b@),
{
    let ab = a.as_bytes();
    let bb = b.as_bytes();
    proof {
        vstd::utf8::encode_utf8_decode_utf8(a@);
        vstd::utf8::encode_utf8_decode_utf8(b@);
    }
    if ab.len() != bb.len() {
        return false;
    }
    let mut i: usize = 0;
    while i < ab.len()
        invariant
            ab@.len() == bb@.len(),
            i <= ab@.len(),
            ab@ == encode_utf8(a@),
            bb@ == encode_utf8(b@),
            vstd::utf8::decode_utf8(encode_utf8(a@)) == a@,
            vstd::utf8::decode_utf8(encode_utf8(b@)) == b@,
            forall|j: int| 0 <= j < i ==> ab@[j] == bb@[j],
        decreases ab@.len() - i,
    {
        if ab[i] != bb[i] {
            return false;
        }
        i = i + 1;
    }
    proof {
        assert(ab@ =~= bb@);
    }
    true
}

/// One configured bootstrap peer, as its encoded node record.
pub struct BootstrapNode {
    pub enr: String,
}

/// The list of bootstrap peers read at start-up.
pub struct BootstrapStore {
    pub data: Vec<BootstrapNode>,
}

impl BootstrapStore {
    /// The peer the node joins from: the first entry, when one exists.
    pub fn first_node(&self) -> (r: Option<&BootstrapNode>)
        ensures
            match r {
                Some(n) => self.data@.len() > 0 && n.enr@ == self.data@[0].enr@,
                None => self.data@.len() == 0,
            },
    {
        if self.data.len() > 0 {
            Some(&self.data[0])
        } else {
            None
        }
    }
}

/// How many separator bytes a report holds.
pub open spec fn sep_count(s: Seq<u8>) -> int
    decreases s.len(),
{
    if s.len() == 0 {
        0
    } else {
        (if s[0] == REPORT_SEP {
            1int
        } else {
            0int
        }) + sep_count(s.skip(1))
    }
}

/// Splits a peer report `id|count` at its single separator.
///
/// Succeeds exactly when the body is valid UTF-8 text holding one
/// separator byte; the two halves then flank it, hold none themselves,
/// and are valid UTF-8 text in their own right.  Anything else is a
/// malformed report.
pub fn parse_peer_report(body: &Vec<u8>) -> (r: Option<(Vec<u8>, Vec<u8>)>)
    ensures
        match r {
            Some(parts) => {
                &&& body@ == parts.0@ + seq![REPORT_SEP] + parts.1@
                &&& sep_count(body@) == 1
                &&& valid_utf8(body@)
                &&& valid_utf8(parts.0@)
                &&& valid_utf8(parts.1@)
                &&& forall|j: int| 0 <= j < parts.0@.len() ==> parts.0@[j] != REPORT_SEP
                &&& forall|j: int| 0 <= j < parts.1@.len() ==> parts.1@[j] != REPORT_SEP
            },
            None => sep_count(body@) != 1 || !valid_utf8(body@),
        },
{
    let n = body.len();
    let mut i: usize = 0;
    // count the separators and remember the first
    let mut count: usize = 0;
    let mut first: usize = 0;
    while i < n
        invariant
            n == body@.len(),
            i <= n,
            count <= i,
            count == sep_count(body@.take(i as int)),
            count > 0 ==> first < i && body@[first as int] == REPORT_SEP && (forall|j: int|
                0 <= j < first ==> body@[j] != REPORT_SEP),
            count == 0 ==> forall|j: int| 0 <= j < i ==> body@[j] != REPORT_SEP,
        decreases n - i,
    {
        proof {
            lemma_sep_count_take(body@, i as int);
        }
        if body[i] == REPORT_SEP {
            if count == 0 {
                first = i;
            }
            count = count + 1;
        }
        i = i + 1;
    }
    proof {
        assert(body@.take(n as int) =~= body@);
    }
    if count != 1 {
        return None;
    }
    let left = crate::codec::get_bytes(body, 0, first);
    let right = crate::codec::get_bytes(body, first + 1, n - first - 1);
    proof {
        assert(body@ =~= left@ + seq![REPORT_SEP] + right@);
        assert forall|j: int| 0 <= j < right@.len() implies right@[j] != REPORT_SEP by {
            assert(right@[j] == body@[first + 1 + j]);
            if body@[first + 1 + j] == REPORT_SEP {
                lemma_sep_count_at(body@, first + 1 + j);
                lemma_sep_count_at_two(body@, first as int, first + 1 + j);
            }
        }
    }
    if crate::text::string_from_bytes(crate::id::copy_bytes(&left)).is_none() {
        proof {
            if valid_utf8(body@) {
                lemma_valid_utf8_split_at_sep(left@, right@);
            }
        }
        return None;
    }
    if crate::text::string_from_bytes(crate::id::copy_bytes(&right)).is_none() {
        proof {
            if valid_utf8(body@) {
                lemma_valid_utf8_split_at_sep(left@, right@);
            }
        }
        return None;
    }
    proof {
        lemma_valid_utf8_join_at_sep(left@, right@);
    }
    Some((left, right))
}

/// A valid UTF-8 report splits into valid UTF-8 halves around the
/// separator: the separator is one ASCII byte, so it sits on a
/// character boundary, and the byte after it starts a fresh character.
proof fn lemma_valid_utf8_split_at_sep(a: Seq<u8>, b: Seq<u8>)
    requires
        valid_utf8(a + seq![REPORT_SEP] + b),
    ensures
        valid_utf8(a),
        valid_utf8(b),
{
    let s = a + seq![REPORT_SEP] + b;
    let p = a.len() as int;
    assert(s[p] == REPORT_SEP);
    vstd::utf8::is_char_boundary_iff_not_is_continuation_byte(s, p);
    vstd::utf8::valid_utf8_split(s, p);
    assert(s.subrange(0, p) =~= a);
    let s2 = s.subrange(p, s.len() as int);
    assert(s2 =~= seq![REPORT_SEP] + b);
    assert(s2[0] == REPORT_SEP);
    assert(valid_utf8(s2));
    assert(vstd::utf8::length_of_first_scalar(s2) == 1);
    assert(vstd::utf8::pop_first_scalar(s2) =~= b);
}

/// Valid UTF-8 halves joined by the ASCII separator form a valid
/// UTF-8 report.
proof fn lemma_valid_utf8_join_at_sep(a: Seq<u8>, b: Seq<u8>)
    requires
        valid_utf8(a),
        valid_utf8(b),
    ensures
        valid_utf8(a + seq![REPORT_SEP] + b),
{
    assert(valid_utf8(seq![REPORT_SEP])) by {
        let m = seq![REPORT_SEP];
        assert(vstd::utf8::valid_first_scalar(m));
        assert(vstd::utf8::length_of_first_scalar(m) == 1);
        assert(vstd::utf8::pop_first_scalar(m) =~= Seq::<u8>::empty());
        assert(vstd::utf8::pop_first_scalar(m) == Seq::<u8>::empty());
        assert(valid_utf8(Seq::<u8>::empty()));
    }
    vstd::utf8::valid_utf8_concat(a, seq![REPORT_SEP]);
    vstd::utf8::valid_utf8_concat(a + seq![REPORT_SEP], b);
}

/// Counting over a prefix plus one more byte.
proof fn lemma_sep_count_take(s: Seq<u8>, i: int)
    requires
        0 <= i < s.len(),
    ensures
        sep_count(s.take(i + 1)) == sep_count(s.take(i)) + (if s[i] == REPORT_SEP {
            1int
        } else {
            0int
        }),
    decreases i,
{
    if i == 0 {
        assert(s.take(1) =~= seq![s[0]]);
        assert(s.take(1).skip(1) =~= Seq::<u8>::empty());
        assert(s.take(0int) =~= Seq::<u8>::empty());
    } else {
        assert(s.take(i + 1)[0] == s[0]);
        assert(s.take(i + 1).skip(1) =~= s.skip(1).take(i));
        assert(s.take(i)[0] == s[0]);
        assert(s.take(i).skip(1) =~= s.skip(1).take(i - 1));
        lemma_sep_count_take(s.skip(1), i - 1);
        assert(s.skip(1)[i - 1] == s[i]);
    }
}

/// A separator at one position counts at least once.
proof fn lemma_sep_count_at(s: Seq<u8>, i: int)
    requires
        0 <= i < s.len(),
        s[i] == REPORT_SEP,
    ensures
        sep_count(s) >= 1,
    decreases i,
{
    if i == 0 {
        lemma_sep_count_nonneg(s.skip(1));
    } else {
        lemma_sep_count_at(s.skip(1), i - 1);
        assert(s.skip(1)[i - 1] == s[i]);
        lemma_sep_count_nonneg(s.skip(1));
    }
}

/// Separators at two positions count at least twice.
proof fn lemma_sep_count_at_two(s: Seq<u8>, i: int, j: int)
    requires
        0 <= i < j < s.len(),
        s[i] == REPORT_SEP,
        s[j] == REPORT_SEP,
    ensures
        sep_count(s) >= 2,
    decreases i,
{
    if i == 0 {
        assert(s.skip(1)[j - 1] == s[j]);
        lemma_sep_count_at(s.skip(1), j - 1);
    } else {
        assert(s.skip(1)[i - 1] == s[i]);
        assert(s.skip(1)[j - 1] == s[j]);
        lemma_sep_count_at_two(s.skip(1), i - 1, j - 1);
    }
}

/// A count is never negative.
proof fn lemma_sep_count_nonneg(s: Seq<u8>)
    ensures
        sep_count(s) >= 0,
    decreases s.len(),
{
    if s.len() > 0 {
        lemma_sep_count_nonneg(s.skip(1));
    }
}

/// Builds the report this node answers a peer-count exchange with:
/// its own id, the separator, and its connected-peer count.
pub fn build_peer_report(self_id: &Vec<u8>, count: &Vec<u8>) -> (r: Vec<u8>)
    ensures
        r@ == self_id@ + seq![REPORT_SEP] + count@,
{
    let mut out = crate::id::copy_bytes(self_id);
    out.push(REPORT_SEP);
    let mut rest = crate::id::copy_bytes(count);
    out.append(&mut rest);
    proof {
        assert(out@ =~= self_id@ + seq![REPORT_SEP] + count@);
    }
    out
}

/// The port the overlay listens on, one above the discovery port.
pub fn overlay_port(discovery_port: u16) -> (r: u16)
    ensures
        r == (if discovery_port < 0xffff {
            (discovery_port + 1) as u16
        } else {
            0xffffu16
        }),
{
    if discovery_port < 0xffff {
        discovery_port + 1
    } else {
        0xffff
    }
}

/// The address a node advertises: an unspecified address falls back to
/// the loopback address.
pub fn advertised_ip4(ip: u32) -> (r: u32)
    ensures
        r == (if ip == 0 {
            0x7f000001u32
        } else {
            ip
        }),
{
    if ip == 0 {
        0x7f000001
    } else {
        ip
    }
}

/// The IPv6 address a node advertises: an unspecified address falls
/// back to the loopback address.
pub fn advertised_ip6(ip: u128) -> (r: u128)
    ensures
        r == (if ip == 0 {
            1u128
        } else {
            ip
        }),
{
    if ip == 0 {
        1
    } else {
        ip
    }
}

/// One discovery event, reduced to plain values.
pub enum DiscoveryEvent {
    /// A peer record was discovered; its address, when it carries one,
    /// and its id rendered as text.
    Discovered { has_addr: bool, ip: u32, port: u16, node_id: Option<Vec<u8>> },
    /// The local socket address was confirmed or updated.
    SocketUpdated { ip: u32, port: u16 },
    /// A peer asked for this node's peer count.
    TalkRequest { is_peer_size: bool, body: Vec<u8> },
    /// Anything else: inserted nodes, established sessions, and the
    /// rest are logged and need no action.
    Other,
}

/// One action the discovery loop owes the node.
pub enum DiscoveryAction {
    /// Confirm the peer at this address with a liveness ping.
    PingAt { ip: u32, port: u16 },
    /// Record a pair in the store through `put`.
    PutPair { key: Vec<u8>, value: Vec<u8> },
    /// Answer the talk request with this body.
    Respond { body: Vec<u8> },
    /// Answer the talk request with an empty body.
    RespondEmpty,
}

/// Decides what one discovery event calls for.
///
/// A discovered peer with an address is pinged at the overlay port and
/// its id is recorded with a zero peer count.  An updated socket is
/// pinged as it stands.  A well-formed peer-count request records the
/// reported pair and is answered with this node's own report; a
/// malformed one gets an empty answer.  Everything else needs nothing.
pub fn discovery_decisions(
    ev: &DiscoveryEvent,
    self_id: &Vec<u8>,
    connected: &Vec<u8>,
) -> (r: Vec<DiscoveryAction>)
    ensures
        match ev {
            DiscoveryEvent::Discovered { has_addr, ip, port, node_id } => {
                &&& !*has_addr ==> r@.len() == 0
                &&& *has_addr ==> (r@.len() >= 1 && (
                r@[0] matches DiscoveryAction::PingAt { ip: i2, port: p2 } && i2 == ip && p2 == (
                if *port < 0xffff {
                    (port + 1) as u16
                } else {
                    0xffffu16
                })))
                &&& *has_addr ==> match node_id {
                    None => r@.len() == 1,
                    Some(nid) => r@.len() == 2 && (
                    r@[1] matches DiscoveryAction::PutPair { key, value } && key@ == nid@ && value@
                        == encode_utf8("0"@)),
                }
            },
            DiscoveryEvent::SocketUpdated { ip, port } => r@.len() == 1 && (
            r@[0] matches DiscoveryAction::PingAt { ip: i2, port: p2 } && i2 == ip && p2 == port),
            DiscoveryEvent::TalkRequest { is_peer_size, body } => {
                &&& !*is_peer_size ==> r@.len() == 0
                &&& (*is_peer_size && sep_count(body@) == 1 && valid_utf8(body@)) ==> r@.len() == 2
                    && (r@[0] matches DiscoveryAction::PutPair { key, value } && body@ == key@
                    + seq![REPORT_SEP] + value@ && valid_utf8(key@) && valid_utf8(value@)) && (
                r@[1] matches DiscoveryAction::Respond { body: resp } && resp@ == self_id@ + seq![
                    REPORT_SEP,
                ] + connected@)
                &&& (*is_peer_size && (sep_count(body@) != 1 || !valid_utf8(body@))) ==> r@.len()
                    == 1 && r@[0] is RespondEmpty
            },
            DiscoveryEvent::Other => r@.len() == 0,
        },
{
    let mut r: Vec<DiscoveryAction> = Vec::new();
    match ev {
        DiscoveryEvent::Discovered { has_addr, ip, port, node_id } => {
            if *has_addr {
                r.push(DiscoveryAction::PingAt { ip: *ip, port: overlay_port(*port) });
                match node_id {
                    Some(nid) => {
                        let zero = digit_zero();
                        r.push(
                            DiscoveryAction::PutPair { key: crate::id::copy_bytes(nid), value: zero },
                        );
                    },
                    None => {},
                }
            }
        },
        DiscoveryEvent::SocketUpdated { ip, port } => {
            r.push(DiscoveryAction::PingAt { ip: *ip, port: *port });
        },
        DiscoveryEvent::TalkRequest { is_peer_size, body } => {
            if *is_peer_size {
                match parse_peer_report(body) {
                    Some(parts) => {
                        r.push(DiscoveryAction::PutPair { key: parts.0, value: parts.1 });
                        r.push(
                            DiscoveryAction::Respond { body: build_peer_report(self_id, connected) },
                        );
                    },
                    None => {
                        r.push(DiscoveryAction::RespondEmpty);
                    },
                }
            }
        },
        DiscoveryEvent::Other => {},
    }
    r
}

/// The single-character zero a fresh peer's count starts at.
fn digit_zero() -> (r: Vec<u8>)
    ensures
        r@ == encode_utf8("0"@),
{
    let mut r: Vec<u8> = Vec::new();
    r.push(48);
    proof {
        reveal_strlit("0");
        vstd::utf8::encode_utf8_decode_utf8("0"@);
        assert("0"@.len() == 1);
        assert("0"@[0] == '0');
        assert(encode_utf8("0"@) =~= r@) by {
            is_ascii_encode(("0"@));
        }
    }
    r
}

/// ASCII text encodes byte for byte.
proof fn is_ascii_encode(s: Seq<char>)
    requires
        vstd::utf8::is_ascii_chars(s),
    ensures
        encode_utf8(s) =~= Seq::new(s.len(), |i: int| s[i] as u8),
{
    vstd::utf8::is_ascii_chars_encode_utf8(s);
}

} // verus!
