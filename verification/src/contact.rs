//! Known peers: identity plus reachability address.
use vstd::prelude::*;
use crate::id::NodeId;
use crate::id::KEY_LEN;

verus! {

/// A peer's identity and address as carried on the wire:
/// `(node_id, ip, port)`.  The IPv4 address is held as its
/// big-endian integer value.
pub struct PeerInfo {
    pub id: NodeId,
    pub ip: u32,
    pub port: u16,
}

impl PeerInfo {
    /// A well-formed peer record holds a full-length id.
    pub open spec fn wf(&self) -> bool {
        self.id@.len() == KEY_LEN
    }

    /// The triple of plain values this record stands for.
    pub open spec fn view_triple(&self) -> (Seq<u8>, u32, u16) {
        (self.id@, self.ip, self.port)
    }

    pub fn new(id: NodeId, ip: u32, port: u16) -> (r: PeerInfo)
        ensures
            r.id@ == id@,
            r.ip == ip,
            r.port == port,
    {
        PeerInfo { id, ip, port }
    }

    /// Copies the record.
    pub fn duplicate(&self) -> (r: PeerInfo)
        ensures
            r.view_triple() == self.view_triple(),
            r.id@ == self.id@,
            r.ip == self.ip,
            r.port == self.port,
    {
        PeerInfo { id: self.id.duplicate(), ip: self.ip, port: self.port }
    }
}

/// A routing-table entry: a peer plus the logical time it was last
/// observed alive.
pub struct Contact {
    pub id: NodeId,
    pub ip: u32,
    pub port: u16,
    pub last_seen: u64,
}

impl Contact {
    /// A well-formed contact holds a full-length id.
    pub open spec fn wf(&self) -> bool {
        self.id@.len() == KEY_LEN
    }

    pub fn new(id: NodeId, ip: u32, port: u16, last_seen: u64) -> (r: Contact)
        ensures
            r.id@ == id@,
            r.ip == ip,
            r.port == port,
            r.last_seen == last_seen,
    {
        Contact { id, ip, port, last_seen }
    }

    /// Copies the contact.
    pub fn duplicate(&self) -> (r: Contact)
        ensures
            r.id@ == self.id@,
            r.ip == self.ip,
            r.port == self.port,
            r.last_seen == self.last_seen,
    {
        Contact { id: self.id.duplicate(), ip: self.ip, port: self.port, last_seen: self.last_seen }
    }

    /// The peer triple of this contact, without the liveness stamp.
    pub fn to_peer(&self) -> (r: PeerInfo)
        ensures
            r.id@ == self.id@,
            r.ip == self.ip,
            r.port == self.port,
    {
        PeerInfo { id: self.id.duplicate(), ip: self.ip, port: self.port }
    }

    /// Makes a contact out of a peer triple, stamped with the given time.
    pub fn from_peer(p: &PeerInfo, last_seen: u64) -> (r: Contact)
        ensures
            r.id@ == p.id@,
            r.ip == p.ip,
            r.port == p.port,
            r.last_seen == last_seen,
    {
        Contact { id: p.id.duplicate(), ip: p.ip, port: p.port, last_seen }
    }
}

} // verus!
