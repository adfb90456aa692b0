//! The k-bucket routing table.
//!
//! One bucket per possible bucket index, each bounded by `K_PARAM`
//! contacts and ordered by recency, least-recently-seen first.  A full
//! bucket never accepts a new contact directly: the caller is handed
//! the least-recently-seen entry to probe, and reports the outcome
//! through `resolve_eviction`.
use vstd::prelude::*;
use crate::contact::Contact;
use crate::contact::PeerInfo;
use crate::id::KEY_LEN;
use crate::id::NodeId;
use crate::id::bucket_index;
use crate::id::bucket_of;
use crate::id::dist_le;

verus! {

/// Number of buckets: one per bit of the id space.
pub const N_BUCKETS: usize = 256;

/// Bucket capacity, and the replication / closeness fan-out width.
pub const K_PARAM: usize = 20;

/// Whether some contact of `b` carries the id `id`.
pub open spec fn bucket_has_id(b: Seq<Contact>, id: Seq<u8>) -> bool {
    exists|j: int| 0 <= j < b.len() && b[j].id@ == id
}

/// The routing table: 256 recency-ordered buckets keyed by the
/// distance to the local node's own id.
pub struct RoutingTable {
    pub self_id: NodeId,
    pub buckets: Vec<Vec<Contact>>,
    pub clock: u64,
}

/// What `insert_or_refresh` did, or asks the caller to decide.
pub enum InsertOutcome {
    /// The contact carries the local node's own id; the table ignores it.
    SelfEntry,
    /// The id was already present: its entry moved to the
    /// most-recently-seen position.
    Refreshed,
    /// The bucket had room: the contact was appended.
    Inserted,
    /// The bucket is full.  The table is unchanged; the carried peer is
    /// the least-recently-seen entry, to be probed out-of-band and
    /// settled with `resolve_eviction`.
    BucketFull(PeerInfo),
}

impl RoutingTable {
    /// The contacts of bucket `i`, least-recently-seen first.
    pub open spec fn spec_bucket(&self, i: int) -> Seq<Contact> {
        self.buckets@[i]@
    }

    /// Everything that must hold of one bucket: bounded size, full-length
    /// ids, no entry for the local node, every entry in the bucket its id
    /// maps to, and no id twice.
    pub open spec fn bucket_ok(&self, i: int) -> bool {
        let b = self.spec_bucket(i);
        &&& b.len() <= K_PARAM
        &&& forall|j: int|
            0 <= j < b.len() ==> (#[trigger] b[j].id@).len() == KEY_LEN && b[j].id@
                != self.self_id@ && bucket_of(self.self_id@, b[j].id@) == i
        &&& forall|j1: int, j2: int| 0 <= j1 < j2 < b.len() ==> b[j1].id@ != b[j2].id@
    }

    /// The table invariant.
    pub open spec fn wf(&self) -> bool {
        &&& self.self_id@.len() == KEY_LEN
        &&& self.buckets@.len() == N_BUCKETS
        &&& forall|i: int| 0 <= i < N_BUCKETS ==> self.bucket_ok(i)
    }

    /// Whether the table holds a contact with the given id.
    pub open spec fn spec_contains_id(&self, id: Seq<u8>) -> bool {
        exists|i: int|
            0 <= i < self.buckets@.len() && bucket_has_id(#[trigger] self.spec_bucket(i), id)
    }

    /// A fresh table for the given local id, all buckets empty.
    pub fn new(self_id: NodeId) -> (r: RoutingTable)
        requires
            self_id.wf(),
        ensures
            r.wf(),
            r.self_id@ == self_id@,
            forall|i: int| 0 <= i < N_BUCKETS ==> (#[trigger] r.spec_bucket(i)).len() == 0,
    {
        let mut buckets: Vec<Vec<Contact>> = Vec::new();
        let mut i: usize = 0;
        while i < N_BUCKETS
            invariant
                i <= N_BUCKETS,
                buckets@.len() == i,
                forall|x: int| 0 <= x < i ==> (#[trigger] buckets@[x]@).len() == 0,
            decreases N_BUCKETS - i,
        {
            buckets.push(Vec::new());
            i = i + 1;
        }
        RoutingTable { self_id, buckets, clock: 0 }
    }

    /// Advances the logical clock that stamps `last_seen`.
    fn tick(&mut self)
        ensures
            final(self).self_id == old(self).self_id,
            final(self).buckets == old(self).buckets,
    {
        if self.clock < u64::MAX {
            self.clock = self.clock + 1;
        }
    }

    /// Records that the peer was observed alive.
    ///
    /// If the peer's id is the local node's own, nothing changes.  If it
    /// is already in its bucket, the entry moves to the most-recently-seen
    /// position with its stored address kept.  Otherwise it is appended
    /// when the bucket has room; a full bucket stays as it is and the
    /// least-recently-seen entry is returned for an out-of-band probe.
    pub fn insert_or_refresh(&mut self, p: &PeerInfo) -> (r: InsertOutcome)
        requires
            old(self).wf(),
            p.wf(),
        ensures
            final(self).wf(),
            final(self).self_id@ == old(self).self_id@,
            final(self).buckets@.len() == N_BUCKETS,
            ({
                let bix = bucket_of(old(self).self_id@, p.id@);
                let ob = old(self).spec_bucket(bix);
                let nb = final(self).spec_bucket(bix);
                &&& (forall|x: int|
                    0 <= x < N_BUCKETS && x != bix ==> #[trigger] final(self).spec_bucket(x) == old(
                        self,
                    ).spec_bucket(x))
                &&& match r {
                    InsertOutcome::SelfEntry => {
                        &&& p.id@ == old(self).self_id@
                        &&& final(self).buckets@ == old(self).buckets@
                    },
                    InsertOutcome::Refreshed => {
                        &&& p.id@ != old(self).self_id@
                        &&& bucket_has_id(ob, p.id@)
                        &&& exists|j: int|
                            0 <= j < ob.len() && (#[trigger] ob[j].id@) == p.id@ && nb
                                == ob.remove(j).push(nb.last()) && nb.last().id@ == p.id@
                                && nb.last().ip == ob[j].ip && nb.last().port == ob[j].port
                    },
                    InsertOutcome::Inserted => {
                        &&& p.id@ != old(self).self_id@
                        &&& !bucket_has_id(ob, p.id@)
                        &&& ob.len() < K_PARAM
                        &&& nb == ob.push(nb.last())
                        &&& nb.last().id@ == p.id@ && nb.last().ip == p.ip && nb.last().port
                            == p.port
                    },
                    InsertOutcome::BucketFull(lru) => {
                        &&& p.id@ != old(self).self_id@
                        &&& !bucket_has_id(ob, p.id@)
                        &&& ob.len() == K_PARAM
                        &&& final(self).buckets@ == old(self).buckets@
                        &&& ob.len() > 0 && lru.id@ == ob[0].id@ && lru.ip == ob[0].ip && lru.port
                            == ob[0].port
                    },
                }
            }),
    {
        self.tick();
        let bix_opt = bucket_index(&self.self_id, &p.id);
        match bix_opt {
            None => {
                proof {
                    assert forall|i: int| 0 <= i < N_BUCKETS implies self.bucket_ok(i) by {
                        assert(old(self).bucket_ok(i));
                    }
                }
                InsertOutcome::SelfEntry
            },
            Some(b) => {
                let ghost bs0 = self.buckets@;
                let mut bucket = self.buckets.remove(b);
                let ghost ob = bucket@;
                // look for an existing entry with this id
                let mut j: usize = 0;
                let mut found: bool = false;
                while j < bucket.len() && !found
                    invariant
                        bucket@ == ob,
                        j <= ob.len(),
                        found ==> j < ob.len() && ob[j as int].id@ == p.id@,
                        !found ==> forall|x: int| 0 <= x < j ==> ob[x].id@ != p.id@,
                    decreases ob.len() - j, (if found {
                        0int
                    } else {
                        1int
                    }),
                {
                    if bucket[j].id.equals(&p.id) {
                        found = true;
                    } else {
                        j = j + 1;
                    }
                }
                if found {
                    let old_c = bucket.remove(j);
                    let refreshed = Contact::new(old_c.id, old_c.ip, old_c.port, self.clock);
                    bucket.push(refreshed);
                    proof {
                        let nb = bucket@;
                        let jj = j as int;
                        assert(nb == ob.remove(jj).push(nb.last()));
                        assert forall|x: int|
                            0 <= x < nb.len() implies ((#[trigger] nb[x].id@).len() == KEY_LEN
                            && nb[x].id@ != self.self_id@ && bucket_of(self.self_id@, nb[x].id@)
                            == b) by {
                            assert(old(self).bucket_ok(b as int));
                            if x < nb.len() - 1 {
                                let x0 = if x < jj {
                                    x
                                } else {
                                    x + 1
                                };
                                assert(nb[x] == ob[x0]);
                            } else {
                                assert(nb[x].id@ == ob[jj].id@);
                            }
                        }
                        assert forall|x1: int, x2: int| 0 <= x1 < x2 < nb.len() implies nb[x1].id@
                            != nb[x2].id@ by {
                            assert(old(self).bucket_ok(b as int));
                            let y1 = if x1 < jj {
                                x1
                            } else {
                                x1 + 1
                            };
                            assert(x1 < nb.len() - 1 && nb[x1] == ob[y1]);
                            if x2 < nb.len() - 1 {
                                let y2 = if x2 < jj {
                                    x2
                                } else {
                                    x2 + 1
                                };
                                assert(nb[x2] == ob[y2]);
                            } else {
                                assert(nb[x2].id@ == ob[jj].id@);
                                assert(y1 != jj);
                            }
                        }
                    }
                    self.buckets.insert(b, bucket);
                    proof {
                        assert(self.buckets@ =~= bs0.update(b as int, self.buckets@[b as int]));
                        assert(old(self).bucket_ok(b as int));
                        self.lemma_wf_after_bucket_swap(*old(self), b as int);
                        let nb = self.spec_bucket(b as int);
                        let jj = j as int;
                        assert(0 <= jj < ob.len() && ob[jj].id@ == p.id@ && nb == ob.remove(
                            jj,
                        ).push(nb.last()) && nb.last().id@ == p.id@ && nb.last().ip == ob[jj].ip
                            && nb.last().port == ob[jj].port);
                    }
                    InsertOutcome::Refreshed
                } else if bucket.len() < K_PARAM {
                    let fresh = Contact::from_peer(p, self.clock);
                    bucket.push(fresh);
                    proof {
                        let nb = bucket@;
                        assert(nb == ob.push(nb.last()));
                        assert forall|x: int|
                            0 <= x < nb.len() implies ((#[trigger] nb[x].id@).len() == KEY_LEN
                            && nb[x].id@ != self.self_id@ && bucket_of(self.self_id@, nb[x].id@)
                            == b) by {
                            assert(old(self).bucket_ok(b as int));
                            if x < nb.len() - 1 {
                                assert(nb[x] == ob[x]);
                            }
                        }
                        assert forall|x1: int, x2: int| 0 <= x1 < x2 < nb.len() implies nb[x1].id@
                            != nb[x2].id@ by {
                            assert(old(self).bucket_ok(b as int));
                            assert(nb[x1] == ob[x1]);
                            if x2 < nb.len() - 1 {
                                assert(nb[x2] == ob[x2]);
                            }
                        }
                    }
                    self.buckets.insert(b, bucket);
                    proof {
                        assert(self.buckets@ =~= bs0.update(b as int, self.buckets@[b as int]));
                        assert(old(self).bucket_ok(b as int));
                        self.lemma_wf_after_bucket_swap(*old(self), b as int);
                    }
                    InsertOutcome::Inserted
                } else {
                    let lru = bucket[0].to_peer();
                    self.buckets.insert(b, bucket);
                    proof {
                        assert(self.buckets@ =~= bs0);
                        assert forall|i: int| 0 <= i < N_BUCKETS implies self.bucket_ok(i) by {
                            assert(old(self).bucket_ok(i));
                        }
                        assert(old(self).bucket_ok(b as int));
                    }
                    InsertOutcome::BucketFull(lru)
                }
            },
        }
    }

    /// After replacing one bucket of a well-formed table with a sequence
    /// that satisfies the bucket conditions itself, the table is
    /// well-formed again.
    proof fn lemma_wf_after_bucket_swap(&self, pre: RoutingTable, b: int)
        requires
            pre.wf(),
            0 <= b < N_BUCKETS,
            self.self_id@ == pre.self_id@,
            self.buckets@.len() == N_BUCKETS,
            forall|x: int|
                0 <= x < N_BUCKETS && x != b ==> #[trigger] self.spec_bucket(x) == pre.spec_bucket(
                    x,
                ),
            ({
                let nb = self.spec_bucket(b);
                &&& nb.len() <= K_PARAM
                &&& forall|j: int|
                    0 <= j < nb.len() ==> (#[trigger] nb[j].id@).len() == KEY_LEN && nb[j].id@
                        != self.self_id@ && bucket_of(self.self_id@, nb[j].id@) == b
                &&& forall|j1: int, j2: int| 0 <= j1 < j2 < nb.len() ==> nb[j1].id@ != nb[j2].id@
            }),
        ensures
            self.wf(),
    {
        assert forall|i: int| 0 <= i < N_BUCKETS implies self.bucket_ok(i) by {
            if i != b {
                assert(self.spec_bucket(i) == pre.spec_bucket(i));
                assert(pre.bucket_ok(i));
            }
        }
    }

    /// Containment depends on the buckets alone.
    proof fn lemma_contains_congruent(&self, other: RoutingTable, id: Seq<u8>)
        requires
            self.buckets@ == other.buckets@,
        ensures
            self.spec_contains_id(id) == other.spec_contains_id(id),
    {
        if self.spec_contains_id(id) {
            let i = choose|i: int|
                0 <= i < self.buckets@.len() && bucket_has_id(#[trigger] self.spec_bucket(i), id);
            assert(bucket_has_id(other.spec_bucket(i), id));
        }
        if other.spec_contains_id(id) {
            let i = choose|i: int|
                0 <= i < other.buckets@.len() && bucket_has_id(#[trigger] other.spec_bucket(i), id);
            assert(bucket_has_id(self.spec_bucket(i), id));
        }
    }

    /// A well-formed table never contains its own id.
    pub proof fn lemma_self_id_not_contained(&self)
        requires
            self.wf(),
        ensures
            !self.spec_contains_id(self.self_id@),
    {
        if self.spec_contains_id(self.self_id@) {
            let i = choose|i: int|
                0 <= i < self.buckets@.len() && bucket_has_id(
                    #[trigger] self.spec_bucket(i),
                    self.self_id@,
                );
            let j = choose|j: int|
                0 <= j < self.spec_bucket(i).len() && self.spec_bucket(i)[j].id@ == self.self_id@;
            assert(self.bucket_ok(i));
        }
    }

    /// If an id is missing from the one bucket it maps to, it is missing
    /// from the whole (well-formed) table.
    proof fn lemma_absent_if_not_in_own_bucket(&self, b: int, id: Seq<u8>)
        requires
            self.wf(),
            id.len() == KEY_LEN,
            id != self.self_id@,
            bucket_of(self.self_id@, id) == b,
            !bucket_has_id(self.spec_bucket(b), id),
        ensures
            !self.spec_contains_id(id),
    {
        if self.spec_contains_id(id) {
            let i = choose|i: int|
                0 <= i < self.buckets@.len() && bucket_has_id(#[trigger] self.spec_bucket(i), id);
            let j = choose|j: int|
                0 <= j < self.spec_bucket(i).len() && self.spec_bucket(i)[j].id@ == id;
            assert(self.bucket_ok(i));
            assert(bucket_of(self.self_id@, id) == i);
        }
    }

    /// If an id is present somewhere in a well-formed table, it is in
    /// the one bucket it maps to.
    pub proof fn lemma_present_in_own_bucket(&self, id: Seq<u8>)
        requires
            self.wf(),
            self.spec_contains_id(id),
        ensures
            id != self.self_id@,
            0 <= bucket_of(self.self_id@, id) < N_BUCKETS,
            bucket_has_id(self.spec_bucket(bucket_of(self.self_id@, id)), id),
    {
        let i = choose|i: int|
            0 <= i < self.buckets@.len() && bucket_has_id(#[trigger] self.spec_bucket(i), id);
        let j = choose|j: int|
            0 <= j < self.spec_bucket(i).len() && self.spec_bucket(i)[j].id@ == id;
        assert(self.bucket_ok(i));
        assert(bucket_of(self.self_id@, id) == i);
    }

    /// Removes the contact with the given id, if present; every other
    /// entry keeps its position and bucket.
    pub fn remove(&mut self, id: &NodeId) -> (r: bool)
        requires
            old(self).wf(),
            id.wf(),
        ensures
            final(self).wf(),
            final(self).self_id@ == old(self).self_id@,
            final(self).buckets@.len() == N_BUCKETS,
            !final(self).spec_contains_id(id@),
            r == old(self).spec_contains_id(id@),
            id@ != old(self).self_id@ ==> ({
                let bix = bucket_of(old(self).self_id@, id@);
                let ob = old(self).spec_bucket(bix);
                let nb = final(self).spec_bucket(bix);
                &&& (forall|x: int|
                    0 <= x < N_BUCKETS && x != bix ==> #[trigger] final(self).spec_bucket(x) == old(
                        self,
                    ).spec_bucket(x))
                &&& r ==> exists|j: int|
                    0 <= j < ob.len() && (#[trigger] ob[j].id@) == id@ && nb == ob.remove(j)
                &&& !r ==> nb == ob
            }),
            id@ == old(self).self_id@ ==> final(self).buckets@ == old(self).buckets@,
    {
        let bix_opt = bucket_index(&self.self_id, id);
        match bix_opt {
            None => {
                proof {
                    self.lemma_self_id_not_contained();
                }
                false
            },
            Some(b) => {
                let ghost bs0 = self.buckets@;
                let mut bucket = self.buckets.remove(b);
                let ghost ob = bucket@;
                let mut j: usize = 0;
                let mut found: bool = false;
                while j < bucket.len() && !found
                    invariant
                        bucket@ == ob,
                        j <= ob.len(),
                        found ==> j < ob.len() && ob[j as int].id@ == id@,
                        !found ==> forall|x: int| 0 <= x < j ==> ob[x].id@ != id@,
                    decreases ob.len() - j, (if found {
                        0int
                    } else {
                        1int
                    }),
                {
                    if bucket[j].id.equals(id) {
                        found = true;
                    } else {
                        j = j + 1;
                    }
                }
                if found {
                    let _gone = bucket.remove(j);
                    proof {
                        let nb = bucket@;
                        let jj = j as int;
                        assert forall|x: int|
                            0 <= x < nb.len() implies ((#[trigger] nb[x].id@).len() == KEY_LEN
                            && nb[x].id@ != self.self_id@ && bucket_of(self.self_id@, nb[x].id@)
                            == b && nb[x].id@ != id@) by {
                            assert(old(self).bucket_ok(b as int));
                            let x0 = if x < jj {
                                x
                            } else {
                                x + 1
                            };
                            assert(nb[x] == ob[x0]);
                        }
                        assert forall|x1: int, x2: int| 0 <= x1 < x2 < nb.len() implies nb[x1].id@
                            != nb[x2].id@ by {
                            assert(old(self).bucket_ok(b as int));
                            let y1 = if x1 < jj {
                                x1
                            } else {
                                x1 + 1
                            };
                            let y2 = if x2 < jj {
                                x2
                            } else {
                                x2 + 1
                            };
                            assert(nb[x1] == ob[y1] && nb[x2] == ob[y2]);
                        }
                    }
                    self.buckets.insert(b, bucket);
                    proof {
                        assert(self.buckets@ =~= bs0.update(b as int, self.buckets@[b as int]));
                        assert(old(self).bucket_ok(b as int));
                        self.lemma_wf_after_bucket_swap(*old(self), b as int);
                        self.lemma_absent_if_not_in_own_bucket(b as int, id@);
                        assert(ob[j as int].id@ == id@);
                        assert(bucket_has_id(ob, id@));
                        assert(old(self).spec_contains_id(id@));
                    }
                    true
                } else {
                    self.buckets.insert(b, bucket);
                    proof {
                        assert(self.buckets@ =~= bs0);
                        assert forall|i: int| 0 <= i < N_BUCKETS implies self.bucket_ok(i) by {
                            assert(old(self).bucket_ok(i));
                        }
                        assert(!bucket_has_id(ob, id@));
                        self.lemma_absent_if_not_in_own_bucket(b as int, id@);
                        old(self).lemma_absent_if_not_in_own_bucket(b as int, id@);
                    }
                    false
                }
            },
        }
    }

    /// Settles a pending eviction probe for a full bucket.
    ///
    /// If the probed least-recently-seen contact answered, it is
    /// refreshed and the newcomer is discarded: stability wins over
    /// churn.  If it did not answer within the timeout, it is removed
    /// and the newcomer takes the freed slot.
    pub fn resolve_eviction(&mut self, stale: &PeerInfo, newcomer: &PeerInfo, stale_responded: bool)
        requires
            old(self).wf(),
            stale.wf(),
            newcomer.wf(),
            stale.id@ != newcomer.id@,
        ensures
            final(self).wf(),
            final(self).self_id@ == old(self).self_id@,
            stale_responded ==> ({
                &&& old(self).spec_contains_id(stale.id@) ==> final(self).spec_contains_id(
                    stale.id@,
                )
                &&& !old(self).spec_contains_id(newcomer.id@) ==> !final(self).spec_contains_id(
                    newcomer.id@,
                )
            }),
            // a responder that was present moves to the most-recently-seen
            // slot of its bucket; every other entry keeps its order
            (stale_responded && stale.id@ != old(self).self_id@) ==> ({
                let bix = bucket_of(old(self).self_id@, stale.id@);
                let ob = old(self).spec_bucket(bix);
                let nb = final(self).spec_bucket(bix);
                &&& (forall|x: int|
                    0 <= x < N_BUCKETS && x != bix ==> #[trigger] final(self).spec_bucket(x) == old(
                        self,
                    ).spec_bucket(x))
                &&& bucket_has_id(ob, stale.id@) ==> exists|j: int|
                    0 <= j < ob.len() && (#[trigger] ob[j].id@) == stale.id@ && nb == ob.remove(
                        j,
                    ).push(nb.last()) && nb.last().id@ == stale.id@ && nb.last().ip == ob[j].ip
                        && nb.last().port == ob[j].port
            }),
            !stale_responded ==> ({
                &&& !final(self).spec_contains_id(stale.id@)
                &&& (newcomer.id@ != old(self).self_id@ && bucket_of(old(self).self_id@, stale.id@)
                    == bucket_of(old(self).self_id@, newcomer.id@) && old(self).spec_contains_id(
                    stale.id@,
                )) ==> final(self).spec_contains_id(newcomer.id@)
            }),
    {
        if stale_responded {
            let ghost pre = *self;
            let outcome = self.insert_or_refresh(stale);
            proof {
                let bix = bucket_of(pre.self_id@, stale.id@);
                let ob = pre.spec_bucket(bix);
                let nb = self.spec_bucket(bix);
                match outcome {
                    InsertOutcome::SelfEntry => {
                        self.lemma_contains_congruent(pre, stale.id@);
                        self.lemma_contains_congruent(pre, newcomer.id@);
                    },
                    InsertOutcome::BucketFull(_) => {
                        self.lemma_contains_congruent(pre, stale.id@);
                        self.lemma_contains_congruent(pre, newcomer.id@);
                    },
                    InsertOutcome::Refreshed => {
                        crate::id::lemma_bucket_of_range(pre.self_id@, stale.id@);
                        assert(nb[nb.len() - 1].id@ == stale.id@);
                        assert(bucket_has_id(nb, stale.id@));
                        assert(self.spec_contains_id(stale.id@));
                        if !pre.spec_contains_id(newcomer.id@) {
                            assert(!self.spec_contains_id(newcomer.id@)) by {
                                if self.spec_contains_id(newcomer.id@) {
                                    self.lemma_present_in_own_bucket(newcomer.id@);
                                    let nbx = bucket_of(self.self_id@, newcomer.id@);
                                    if nbx != bix {
                                        assert(self.spec_bucket(nbx) == pre.spec_bucket(nbx));
                                        assert(pre.spec_contains_id(newcomer.id@));
                                    } else {
                                        let x = choose|x: int|
                                            0 <= x < nb.len() && nb[x].id@ == newcomer.id@;
                                        let j = choose|j: int|
                                            0 <= j < ob.len() && (#[trigger] ob[j].id@)
                                                == stale.id@ && nb == ob.remove(j).push(nb.last());
                                        if x < nb.len() - 1 {
                                            let x0 = if x < j {
                                                x
                                            } else {
                                                x + 1
                                            };
                                            assert(nb[x] == ob[x0]);
                                            assert(bucket_has_id(ob, newcomer.id@));
                                            assert(pre.spec_contains_id(newcomer.id@));
                                        }
                                    }
                                }
                            }
                        }
                    },
                    InsertOutcome::Inserted => {
                        crate::id::lemma_bucket_of_range(pre.self_id@, stale.id@);
                        assert(nb[nb.len() - 1].id@ == stale.id@);
                        assert(bucket_has_id(nb, stale.id@));
                        assert(self.spec_contains_id(stale.id@));
                        if !pre.spec_contains_id(newcomer.id@) {
                            assert(!self.spec_contains_id(newcomer.id@)) by {
                                if self.spec_contains_id(newcomer.id@) {
                                    self.lemma_present_in_own_bucket(newcomer.id@);
                                    let nbx = bucket_of(self.self_id@, newcomer.id@);
                                    if nbx != bix {
                                        assert(self.spec_bucket(nbx) == pre.spec_bucket(nbx));
                                        assert(pre.spec_contains_id(newcomer.id@));
                                    } else {
                                        let x = choose|x: int|
                                            0 <= x < nb.len() && nb[x].id@ == newcomer.id@;
                                        if x < nb.len() - 1 {
                                            assert(nb[x] == ob[x]);
                                            assert(bucket_has_id(ob, newcomer.id@));
                                            assert(pre.spec_contains_id(newcomer.id@));
                                        }
                                    }
                                }
                            }
                        }
                    },
                }
            }
        } else {
            let ghost pre = *self;
            self.remove(&stale.id);
            let ghost mid = *self;
            let outcome = self.insert_or_refresh(newcomer);
            proof {
                let sbix = bucket_of(pre.self_id@, stale.id@);
                let nbix = bucket_of(pre.self_id@, newcomer.id@);
                // the stale id stays absent: only entries with the newcomer's id were added
                assert(!self.spec_contains_id(stale.id@)) by {
                    if self.spec_contains_id(stale.id@) {
                        self.lemma_present_in_own_bucket(stale.id@);
                        let mb = mid.spec_bucket(sbix);
                        let fb = self.spec_bucket(sbix);
                        assert(!bucket_has_id(mb, stale.id@)) by {
                            if bucket_has_id(mb, stale.id@) {
                                crate::id::lemma_bucket_of_range(pre.self_id@, stale.id@);
                                assert(mid.spec_contains_id(stale.id@));
                            }
                        }
                        if sbix != nbix {
                            assert(fb == mb);
                        } else {
                            let x = choose|x: int| 0 <= x < fb.len() && fb[x].id@ == stale.id@;
                            match outcome {
                                InsertOutcome::SelfEntry => {
                                    assert(fb == mb);
                                },
                                InsertOutcome::BucketFull(_) => {
                                    assert(fb == mb);
                                },
                                InsertOutcome::Refreshed => {
                                    let j = choose|j: int|
                                        0 <= j < mb.len() && (#[trigger] mb[j].id@)
                                            == newcomer.id@ && fb == mb.remove(j).push(fb.last());
                                    if x < fb.len() - 1 {
                                        let x0 = if x < j {
                                            x
                                        } else {
                                            x + 1
                                        };
                                        assert(fb[x] == mb[x0]);
                                    } else {
                                        assert(fb[x].id@ == newcomer.id@);
                                    }
                                },
                                InsertOutcome::Inserted => {
                                    if x < fb.len() - 1 {
                                        assert(fb[x] == mb[x]);
                                    } else {
                                        assert(fb[x].id@ == newcomer.id@);
                                    }
                                },
                            }
                        }
                    }
                }
                // with the slot freed in the shared bucket, the newcomer got in
                if newcomer.id@ != pre.self_id@ && sbix == nbix && pre.spec_contains_id(
                    stale.id@,
                ) {
                    pre.lemma_present_in_own_bucket(stale.id@);
                    let mb = mid.spec_bucket(nbix);
                    let fb = self.spec_bucket(nbix);
                    assert(mb.len() < pre.spec_bucket(sbix).len()) by {
                        let j = choose|j: int|
                            0 <= j < pre.spec_bucket(sbix).len() && (#[trigger] pre.spec_bucket(
                                sbix,
                            )[j].id@) == stale.id@ && mid.spec_bucket(sbix) == pre.spec_bucket(
                                sbix,
                            ).remove(j);
                    }
                    assert(pre.bucket_ok(sbix));
                    assert(mb.len() < K_PARAM);
                    match outcome {
                        InsertOutcome::SelfEntry => {
                            assert(false);
                        },
                        InsertOutcome::BucketFull(_) => {
                            assert(false);
                        },
                        InsertOutcome::Refreshed => {
                            assert(fb[fb.len() - 1].id@ == newcomer.id@);
                            assert(bucket_has_id(fb, newcomer.id@));
                            crate::id::lemma_bucket_of_range(pre.self_id@, newcomer.id@);
                            assert(self.spec_contains_id(newcomer.id@));
                        },
                        InsertOutcome::Inserted => {
                            assert(fb[fb.len() - 1].id@ == newcomer.id@);
                            assert(bucket_has_id(fb, newcomer.id@));
                            crate::id::lemma_bucket_of_range(pre.self_id@, newcomer.id@);
                            assert(self.spec_contains_id(newcomer.id@));
                        },
                    }
                }
            }
        }
    }
}

/// Field-for-field agreement of two contacts.
pub open spec fn same_contact(a: Contact, b: Contact) -> bool {
    a.id@ == b.id@ && a.ip == b.ip && a.port == b.port && a.last_seen == b.last_seen
}

/// Whether some contact of `s` carries the id `id`.
pub open spec fn seq_has_id(s: Seq<Contact>, id: Seq<u8>) -> bool {
    exists|k: int| 0 <= k < s.len() && s[k].id@ == id
}

/// Whether some contact of `s` agrees with `c` field for field.
pub open spec fn seq_has_contact(s: Seq<Contact>, c: Contact) -> bool {
    exists|k: int| 0 <= k < s.len() && same_contact(s[k], c)
}

/// The number of contacts over a sequence of buckets.
pub open spec fn sum_lens(bs: Seq<Vec<Contact>>) -> int
    decreases bs.len(),
{
    if bs.len() == 0 {
        0
    } else {
        sum_lens(bs.drop_last()) + bs.last()@.len()
    }
}

impl RoutingTable {
    /// How many contacts the whole table holds.
    pub open spec fn spec_total(&self) -> int {
        sum_lens(self.buckets@)
    }

    /// Whether the table holds a contact agreeing with `c` field for field.
    pub open spec fn spec_has_contact(&self, c: Contact) -> bool {
        exists|i: int|
            0 <= i < self.buckets@.len() && seq_has_contact(#[trigger] self.spec_bucket(i), c)
    }

    /// Bucket capacity law: in a well-formed table every bucket holds at
    /// most `K_PARAM` contacts, and no id appears at two positions of the
    /// table, whether in one bucket or across buckets.
    pub proof fn lemma_capacity_and_uniqueness(&self)
        requires
            self.wf(),
        ensures
            forall|i: int| 0 <= i < N_BUCKETS ==> (#[trigger] self.spec_bucket(i)).len() <= K_PARAM,
            forall|i1: int, j1: int, i2: int, j2: int|
                0 <= i1 < N_BUCKETS && 0 <= j1 < self.spec_bucket(i1).len() && 0 <= i2 < N_BUCKETS
                    && 0 <= j2 < self.spec_bucket(i2).len() && (i1 != i2 || j1 != j2) ==> (
                #[trigger] self.spec_bucket(i1)[j1].id@) != (#[trigger] self.spec_bucket(i2)[j2].id@),
    {
        assert forall|i: int| 0 <= i < N_BUCKETS implies (#[trigger] self.spec_bucket(i)).len()
            <= K_PARAM by {
            assert(self.bucket_ok(i));
        }
        assert forall|i1: int, j1: int, i2: int, j2: int|
            0 <= i1 < N_BUCKETS && 0 <= j1 < self.spec_bucket(i1).len() && 0 <= i2 < N_BUCKETS && 0
                <= j2 < self.spec_bucket(i2).len() && (i1 != i2 || j1 != j2) implies (
        #[trigger] self.spec_bucket(i1)[j1].id@) != (#[trigger] self.spec_bucket(
            i2,
        )[j2].id@) by {
            assert(self.bucket_ok(i1));
            assert(self.bucket_ok(i2));
            if i1 == i2 {
            } else {
                assert(bucket_of(self.self_id@, self.spec_bucket(i1)[j1].id@) == i1);
                assert(bucket_of(self.self_id@, self.spec_bucket(i2)[j2].id@) == i2);
            }
        }
    }

    /// Positions of the table already walked: all of the buckets before
    /// `i`, and the first `j` slots of bucket `i`.
    pub open spec fn pos_done(&self, i2: int, j2: int, i: int, j: int) -> bool {
        &&& 0 <= i2 < self.buckets@.len()
        &&& 0 <= j2 < self.spec_bucket(i2).len()
        &&& i2 < i || (i2 == i && j2 < j)
    }

    /// Whether `c` agrees with some contact at a walked position.
    pub open spec fn from_done_pos(&self, c: Contact, i: int, j: int) -> bool {
        exists|i2: int, j2: int|
            #[trigger] self.pos_done(i2, j2, i, j) && same_contact(c, self.spec_bucket(i2)[j2])
    }

    /// `r` holds exactly the contacts of the walked positions.
    pub open spec fn gathered(&self, r: Seq<Contact>, i: int, j: int) -> bool {
        &&& forall|k: int| 0 <= k < r.len() ==> self.from_done_pos(#[trigger] r[k], i, j)
        &&& forall|i2: int, j2: int|
            #[trigger] self.pos_done(i2, j2, i, j) ==> seq_has_contact(r, self.spec_bucket(i2)[j2])
    }

    /// Stepping past the end of bucket `i` walks up to the start of
    /// bucket `i + 1`.
    proof fn lemma_gathered_next_bucket(&self, r: Seq<Contact>, i: int)
        requires
            self.gathered(r, i, self.spec_bucket(i).len() as int),
        ensures
            self.gathered(r, i + 1, 0),
    {
        let jlen = self.spec_bucket(i).len() as int;
        assert forall|k: int| 0 <= k < r.len() implies self.from_done_pos(
            #[trigger] r[k],
            i + 1,
            0,
        ) by {
            assert(self.from_done_pos(r[k], i, jlen));
            let (i2, j2) = choose|i2: int, j2: int|
                #[trigger] self.pos_done(i2, j2, i, jlen) && same_contact(
                    r[k],
                    self.spec_bucket(i2)[j2],
                );
            assert(self.pos_done(i2, j2, i + 1, 0) && same_contact(r[k], self.spec_bucket(i2)[j2]));
        }
        assert forall|i2: int, j2: int| #[trigger] self.pos_done(i2, j2, i + 1, 0) implies
            seq_has_contact(r, self.spec_bucket(i2)[j2]) by {
            assert(self.pos_done(i2, j2, i, jlen));
        }
    }

    /// Pushing the contact of the next position extends the walk by one.
    proof fn lemma_gathered_push(&self, r: Seq<Contact>, i: int, j: int, c: Contact)
        requires
            self.gathered(r, i, j),
            0 <= i < self.buckets@.len(),
            0 <= j < self.spec_bucket(i).len(),
            same_contact(c, self.spec_bucket(i)[j]),
        ensures
            self.gathered(r.push(c), i, j + 1),
    {
        let r2 = r.push(c);
        assert forall|k: int| 0 <= k < r2.len() implies self.from_done_pos(
            #[trigger] r2[k],
            i,
            j + 1,
        ) by {
            if k < r.len() {
                assert(r2[k] == r[k]);
                assert(self.from_done_pos(r[k], i, j));
                let (i2, j2) = choose|i2: int, j2: int|
                    #[trigger] self.pos_done(i2, j2, i, j) && same_contact(
                        r[k],
                        self.spec_bucket(i2)[j2],
                    );
                assert(self.pos_done(i2, j2, i, j + 1) && same_contact(
                    r2[k],
                    self.spec_bucket(i2)[j2],
                ));
            } else {
                assert(self.pos_done(i, j, i, j + 1) && same_contact(
                    r2[k],
                    self.spec_bucket(i)[j],
                ));
            }
        }
        assert forall|i2: int, j2: int| #[trigger] self.pos_done(i2, j2, i, j + 1) implies
            seq_has_contact(r2, self.spec_bucket(i2)[j2]) by {
            if i2 == i && j2 == j {
                assert(same_contact(r2[r2.len() - 1], self.spec_bucket(i2)[j2]));
            } else {
                assert(self.pos_done(i2, j2, i, j));
                let k = choose|k: int|
                    0 <= k < r.len() && same_contact(r[k], self.spec_bucket(i2)[j2]);
                assert(same_contact(r2[k], self.spec_bucket(i2)[j2]));
            }
        }
    }

    /// Copies every contact of the table out into one sequence.
    fn all_contacts(&self) -> (r: Vec<Contact>)
        requires
            self.wf(),
        ensures
            r@.len() == self.spec_total(),
            forall|k: int| 0 <= k < r@.len() ==> self.spec_has_contact(#[trigger] r@[k]),
            forall|k: int|
                0 <= k < r@.len() ==> (#[trigger] r@[k].id@).len() == KEY_LEN && r@[k].id@
                    != self.self_id@,
            forall|i: int, j: int|
                0 <= i < N_BUCKETS && 0 <= j < self.spec_bucket(i).len() ==> seq_has_contact(
                    r@,
                    #[trigger] self.spec_bucket(i)[j],
                ),
            forall|k1: int, k2: int| 0 <= k1 < k2 < r@.len() ==> r@[k1].id@ != r@[k2].id@,
    {
        proof {
            self.lemma_capacity_and_uniqueness();
        }
        let mut r: Vec<Contact> = Vec::new();
        let mut i: usize = 0;
        proof {
            assert(self.buckets@.take(0int) =~= Seq::<Vec<Contact>>::empty());
        }
        while i < N_BUCKETS
            invariant
                self.wf(),
                i <= N_BUCKETS,
                r@.len() == sum_lens(self.buckets@.take(i as int)),
                self.gathered(r@, i as int, 0),
                forall|k1: int, k2: int| 0 <= k1 < k2 < r@.len() ==> r@[k1].id@ != r@[k2].id@,
            decreases N_BUCKETS - i,
        {
            let mut j: usize = 0;
            while j < self.buckets[i].len()
                invariant
                    self.wf(),
                    i < N_BUCKETS,
                    j <= self.spec_bucket(i as int).len(),
                    r@.len() == sum_lens(self.buckets@.take(i as int)) + j,
                    self.gathered(r@, i as int, j as int),
                    forall|k1: int, k2: int| 0 <= k1 < k2 < r@.len() ==> r@[k1].id@ != r@[k2].id@,
                decreases self.spec_bucket(i as int).len() - j,
            {
                let c = self.buckets[i][j].duplicate();
                let ghost r_old = r@;
                r.push(c);
                proof {
                    let ii = i as int;
                    let jj = j as int;
                    self.lemma_gathered_push(r_old, ii, jj, r@[r@.len() - 1]);
                    assert forall|k1: int, k2: int| 0 <= k1 < k2 < r@.len() implies r@[k1].id@
                        != r@[k2].id@ by {
                        if k2 == r@.len() - 1 {
                            self.lemma_capacity_and_uniqueness();
                            assert(self.from_done_pos(r_old[k1], ii, jj));
                            let (i2, j2) = choose|i2: int, j2: int|
                                #[trigger] self.pos_done(i2, j2, ii, jj) && same_contact(
                                    r_old[k1],
                                    self.spec_bucket(i2)[j2],
                                );
                            assert(self.spec_bucket(i2)[j2].id@ != self.spec_bucket(ii)[jj].id@);
                        } else {
                            assert(r_old[k1].id@ != r_old[k2].id@);
                        }
                    }
                }
                j = j + 1;
            }
            proof {
                assert(self.buckets@.take(i + 1).drop_last() =~= self.buckets@.take(i as int));
                assert(self.buckets@.take(i + 1).last() == self.buckets@[i as int]);
                assert(sum_lens(self.buckets@.take(i + 1)) == sum_lens(self.buckets@.take(i as int))
                    + self.spec_bucket(i as int).len());
                self.lemma_gathered_next_bucket(r@, i as int);
            }
            i = i + 1;
        }
        proof {
            assert(self.buckets@.take(N_BUCKETS as int) =~= self.buckets@);
            assert forall|k: int| 0 <= k < r@.len() implies (self.spec_has_contact(#[trigger] r@[k])
                && r@[k].id@.len() == KEY_LEN && r@[k].id@ != self.self_id@) by {
                assert(self.from_done_pos(r@[k], N_BUCKETS as int, 0));
                let (i2, j2) = choose|i2: int, j2: int|
                    #[trigger] self.pos_done(i2, j2, N_BUCKETS as int, 0) && same_contact(
                        r@[k],
                        self.spec_bucket(i2)[j2],
                    );
                assert(same_contact(self.spec_bucket(i2)[j2], r@[k]) || same_contact(
                    r@[k],
                    self.spec_bucket(i2)[j2],
                ));
                assert(seq_has_contact(self.spec_bucket(i2), r@[k]));
                assert(self.bucket_ok(i2));
            }
            assert forall|i2: int, j2: int|
                0 <= i2 < N_BUCKETS && 0 <= j2 < self.spec_bucket(i2).len() implies seq_has_contact(
                r@,
                #[trigger] self.spec_bucket(i2)[j2],
            ) by {
                assert(self.pos_done(i2, j2, N_BUCKETS as int, 0));
            }
        }
        r
    }

    /// The `n` contacts of the table closest to `target`, nearest
    /// first.
    ///
    /// The result is sorted by ascending XOR distance to `target`,
    /// holds `min(n, total)` table contacts with no id twice, and no
    /// table contact left out is closer to `target` than any returned
    /// one.
    pub fn closest_contacts(&self, target: &NodeId, n: usize) -> (r: Vec<Contact>)
        requires
            self.wf(),
            target.wf(),
        ensures
            r@.len() == if n as int <= self.spec_total() {
                n as int
            } else {
                self.spec_total()
            },
            forall|k: int| 0 <= k < r@.len() ==> self.spec_has_contact(#[trigger] r@[k]),
            forall|a: int, b: int|
                0 <= a < b < r@.len() ==> dist_le(target@, r@[a].id@, r@[b].id@),
            forall|k1: int, k2: int| 0 <= k1 < k2 < r@.len() ==> r@[k1].id@ != r@[k2].id@,
            forall|c: Contact, k: int|
                #![trigger self.spec_has_contact(c), r@[k]]
                self.spec_has_contact(c) && !seq_has_id(r@, c.id@) && 0 <= k < r@.len()
                    ==> dist_le(target@, r@[k].id@, c.id@),
    {
        let mut pool = self.all_contacts();
        let mut out: Vec<Contact> = Vec::new();
        while out.len() < n && pool.len() > 0
            invariant
                self.wf(),
                target@.len() == KEY_LEN,
                out@.len() + pool@.len() == self.spec_total(),
                out@.len() <= n,
                forall|k: int| 0 <= k < out@.len() ==> self.spec_has_contact(#[trigger] out@[k]),
                forall|k: int| 0 <= k < out@.len() ==> (#[trigger] out@[k].id@).len() == KEY_LEN,
                forall|k: int|
                    0 <= k < pool@.len() ==> self.spec_has_contact(#[trigger] pool@[k]),
                forall|k: int|
                    0 <= k < pool@.len() ==> (#[trigger] pool@[k].id@).len() == KEY_LEN,
                forall|k1: int, k2: int| 0 <= k1 < k2 < out@.len() ==> out@[k1].id@ != out@[k2].id@,
                forall|k1: int, k2: int|
                    0 <= k1 < k2 < pool@.len() ==> pool@[k1].id@ != pool@[k2].id@,
                forall|k1: int, k2: int|
                    0 <= k1 < out@.len() && 0 <= k2 < pool@.len() ==> out@[k1].id@
                        != pool@[k2].id@,
                forall|a: int, b: int|
                    0 <= a < b < out@.len() ==> dist_le(target@, out@[a].id@, out@[b].id@),
                forall|a: int, b: int|
                    0 <= a < out@.len() && 0 <= b < pool@.len() ==> dist_le(
                        target@,
                        out@[a].id@,
                        pool@[b].id@,
                    ),
                forall|c: Contact|
                    #[trigger] self.spec_has_contact(c) ==> seq_has_id(out@, c.id@) || seq_has_id(
                        pool@,
                        c.id@,
                    ),
            decreases pool@.len(),
        {
            // find the pool entry nearest to the target
            let mut best: usize = 0;
            let mut k: usize = 1;
            proof {
                crate::id::lemma_seq_lt_irreflexive(crate::id::xor_seq(target@, pool@[0].id@));
            }
            while k < pool.len()
                invariant
                    target@.len() == KEY_LEN,
                    pool@.len() > 0,
                    best < pool@.len(),
                    k <= pool@.len(),
                    forall|x: int|
                        0 <= x < pool@.len() ==> (#[trigger] pool@[x].id@).len() == KEY_LEN,
                    forall|x: int| 0 <= x < k ==> dist_le(target@, pool@[best as int].id@, (#[trigger] pool@[x]).id@),
                decreases pool@.len() - k,
            {
                if crate::id::closer_to(target, &pool[k].id, &pool[best].id) {
                    proof {
                        let ghost ok = k as int;
                        let ghost ob = best as int;
                        crate::id::lemma_dist_lt_implies_le(
                            target@,
                            pool@[ok].id@,
                            pool@[ob].id@,
                        );
                        assert forall|x: int| 0 <= x < ok + 1 implies dist_le(
                            target@,
                            pool@[ok].id@,
                            (#[trigger] pool@[x]).id@,
                        ) by {
                            if x < ok {
                                crate::id::lemma_dist_le_trans(
                                    target@,
                                    pool@[ok].id@,
                                    pool@[ob].id@,
                                    pool@[x].id@,
                                );
                            } else {
                                crate::id::lemma_seq_lt_irreflexive(
                                    crate::id::xor_seq(target@, pool@[ok].id@),
                                );
                            }
                        }
                    }
                    best = k;
                }
                k = k + 1;
            }
            let ghost pool_old = pool@;
            let ghost out_old = out@;
            let ghost bb = best as int;
            let chosen = pool.remove(best);
            out.push(chosen);
            proof {
                assert(out@ == out_old.push(pool_old[bb]));
                assert(pool@ == pool_old.remove(bb));
                assert forall|k1: int, k2: int| 0 <= k1 < k2 < out@.len() implies out@[k1].id@
                    != out@[k2].id@ by {
                    if k2 < out@.len() - 1 {
                        assert(out@[k1] == out_old[k1] && out@[k2] == out_old[k2]);
                    } else {
                        assert(out@[k1] == out_old[k1]);
                        assert(out_old[k1].id@ != pool_old[bb].id@);
                    }
                }
                assert forall|k1: int, k2: int|
                    0 <= k1 < k2 < pool@.len() implies pool@[k1].id@ != pool@[k2].id@ by {
                    let y1 = if k1 < bb {
                        k1
                    } else {
                        k1 + 1
                    };
                    let y2 = if k2 < bb {
                        k2
                    } else {
                        k2 + 1
                    };
                    assert(pool@[k1] == pool_old[y1] && pool@[k2] == pool_old[y2]);
                }
                assert forall|k1: int, k2: int|
                    0 <= k1 < out@.len() && 0 <= k2 < pool@.len() implies out@[k1].id@
                    != pool@[k2].id@ by {
                    let y2 = if k2 < bb {
                        k2
                    } else {
                        k2 + 1
                    };
                    assert(pool@[k2] == pool_old[y2]);
                    if k1 < out@.len() - 1 {
                        assert(out@[k1] == out_old[k1]);
                    } else {
                        assert(out@[k1] == pool_old[bb]);
                        assert(y2 != bb);
                    }
                }
                assert forall|a: int, b: int| 0 <= a < b < out@.len() implies dist_le(
                    target@,
                    out@[a].id@,
                    out@[b].id@,
                ) by {
                    assert(out@[a] == out_old[a]);
                    if b < out@.len() - 1 {
                        assert(out@[b] == out_old[b]);
                    } else {
                        assert(out@[b] == pool_old[bb]);
                    }
                }
                assert forall|a: int, b: int|
                    0 <= a < out@.len() && 0 <= b < pool@.len() implies dist_le(
                    target@,
                    out@[a].id@,
                    pool@[b].id@,
                ) by {
                    let y = if b < bb {
                        b
                    } else {
                        b + 1
                    };
                    assert(pool@[b] == pool_old[y]);
                    if a < out@.len() - 1 {
                        assert(out@[a] == out_old[a]);
                    } else {
                        assert(out@[a] == pool_old[bb]);
                        assert(dist_le(target@, pool_old[bb].id@, pool_old[y].id@));
                    }
                }
                assert forall|c: Contact| #[trigger] self.spec_has_contact(c) implies (seq_has_id(
                    out@,
                    c.id@,
                ) || seq_has_id(pool@, c.id@)) by {
                    if seq_has_id(out_old, c.id@) {
                        let x = choose|x: int| 0 <= x < out_old.len() && out_old[x].id@ == c.id@;
                        assert(out@[x].id@ == c.id@);
                    } else {
                        let x = choose|x: int| 0 <= x < pool_old.len() && pool_old[x].id@ == c.id@;
                        if x == bb {
                            assert(out@[out@.len() - 1].id@ == c.id@);
                        } else {
                            let y = if x < bb {
                                x
                            } else {
                                x - 1
                            };
                            assert(pool@[y].id@ == c.id@);
                        }
                    }
                }
            }
        }
        proof {
            assert forall|c: Contact, k: int|
                #![trigger self.spec_has_contact(c), out@[k]]
                self.spec_has_contact(c) && !seq_has_id(out@, c.id@) && 0 <= k
                    < out@.len() implies dist_le(target@, out@[k].id@, c.id@) by {
                assert(seq_has_id(pool@, c.id@));
                let b = choose|b: int| 0 <= b < pool@.len() && pool@[b].id@ == c.id@;
                assert(dist_le(target@, out@[k].id@, pool@[b].id@));
            }
        }
        out
    }
}

} // verus!
