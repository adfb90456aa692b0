//! The iterative lookup's decision state.
//!
//! A lookup converges on the nodes nearest a target id.  The state
//! tracks the unqueried candidates, the ids already dispatched, and the
//! closest id seen so far.  The caller runs the rounds: it asks for the
//! next batch, performs the RPCs, and feeds every reply back.  A
//! contact is never handed out twice: ids move one way, from the
//! candidate list into the queried list.
use vstd::prelude::*;
use crate::contact::Contact;
use crate::contact::PeerInfo;
use crate::id::KEY_LEN;
use crate::id::NodeId;
use crate::id::dist_le;
use crate::id::dist_lt;
use crate::table::K_PARAM;

verus! {

/// How many RPCs a lookup keeps outstanding at once.
pub const ALPHA: usize = 3;

/// Whether some peer of `s` carries the id `id`.
pub open spec fn peers_have_id(s: Seq<PeerInfo>, id: Seq<u8>) -> bool {
    exists|k: int| 0 <= k < s.len() && s[k].id@ == id
}

/// Whether some id of `s` is `id`.
pub open spec fn ids_have_id(s: Seq<NodeId>, id: Seq<u8>) -> bool {
    exists|k: int| 0 <= k < s.len() && s[k]@ == id
}

/// The in-flight state of one iterative lookup.
///
/// Convergence follows the stall rule: while rounds keep finding
/// contacts closer than everything seen before, the lookup continues
/// with `ALPHA`-wide rounds; the first round without progress turns
/// `closing` on, one final `K_PARAM`-wide round runs against the best
/// unqueried candidates, and `round_done` then tells the caller to
/// stop.
pub struct LookupState {
    pub target: NodeId,
    pub want_value: bool,
    pub candidates: Vec<PeerInfo>,
    pub queried: Vec<NodeId>,
    pub best: Option<NodeId>,
    pub closing: bool,
}

impl LookupState {
    /// Everything the lookup keeps true: full-length ids, no candidate
    /// id twice, and no candidate already queried.
    pub open spec fn wf(&self) -> bool {
        &&& self.target@.len() == KEY_LEN
        &&& forall|k: int|
            0 <= k < self.candidates@.len() ==> (#[trigger] self.candidates@[k].id@).len()
                == KEY_LEN
        &&& forall|k: int| 0 <= k < self.queried@.len() ==> (#[trigger] self.queried@[k]@).len() == KEY_LEN
        &&& forall|k1: int, k2: int|
            0 <= k1 < k2 < self.candidates@.len() ==> self.candidates@[k1].id@
                != self.candidates@[k2].id@
        &&& forall|k: int|
            0 <= k < self.candidates@.len() ==> !ids_have_id(
                self.queried@,
                (#[trigger] self.candidates@[k]).id@,
            )
        &&& match self.best {
            Some(b) => b@.len() == KEY_LEN,
            None => true,
        }
    }

    /// Starts a lookup from the table's closest contacts to the target.
    ///
    /// The candidate set is the seeds; nothing is queried yet; the
    /// closest id seen is the nearest seed, or nothing when the seeds
    /// are empty.
    pub fn new(target: NodeId, want_value: bool, seeds: &Vec<Contact>) -> (r: LookupState)
        requires
            target.wf(),
            forall|k: int| 0 <= k < seeds@.len() ==> (#[trigger] seeds@[k].id@).len() == KEY_LEN,
            forall|k1: int, k2: int| 0 <= k1 < k2 < seeds@.len() ==> seeds@[k1].id@ != seeds@[k2].id@,
        ensures
            r.wf(),
            r.target@ == target@,
            r.want_value == want_value,
            r.queried@.len() == 0,
            r.closing == false,
            r.candidates@.len() == seeds@.len(),
            forall|k: int|
                0 <= k < seeds@.len() ==> (#[trigger] r.candidates@[k].id@) == seeds@[k].id@
                    && r.candidates@[k].ip == seeds@[k].ip && r.candidates@[k].port
                    == seeds@[k].port,
            seeds@.len() == 0 <==> r.best is None,
            match r.best {
                Some(b) => peers_have_id(r.candidates@, b@) && (forall|k: int|
                    0 <= k < r.candidates@.len() ==> dist_le(
                        target@,
                        b@,
                        (#[trigger] r.candidates@[k]).id@,
                    )),
                None => true,
            },
    {
        let mut candidates: Vec<PeerInfo> = Vec::new();
        let mut i: usize = 0;
        while i < seeds.len()
            invariant
                i <= seeds@.len(),
                candidates@.len() == i,
                forall|k: int|
                    0 <= k < seeds@.len() ==> (#[trigger] seeds@[k].id@).len() == KEY_LEN,
                forall|k: int|
                    0 <= k < i ==> (#[trigger] candidates@[k].id@) == seeds@[k].id@
                        && candidates@[k].ip == seeds@[k].ip && candidates@[k].port
                        == seeds@[k].port,
            decreases seeds@.len() - i,
        {
            candidates.push(seeds[i].to_peer());
            i = i + 1;
        }
        // the nearest seed is the first closest id seen
        let mut best: Option<NodeId> = None;
        let mut b: usize = 0;
        let mut j: usize = 0;
        if candidates.len() > 0 {
            proof {
                crate::id::lemma_seq_lt_irreflexive(
                    crate::id::xor_seq(target@, candidates@[0].id@),
                );
            }
            j = 1;
            while j < candidates.len()
                invariant
                    target@.len() == KEY_LEN,
                    candidates@.len() > 0,
                    b < candidates@.len(),
                    j <= candidates@.len(),
                    forall|k: int|
                        0 <= k < candidates@.len() ==> (#[trigger] candidates@[k].id@).len()
                            == KEY_LEN,
                    forall|x: int|
                        0 <= x < j ==> dist_le(
                            target@,
                            candidates@[b as int].id@,
                            (#[trigger] candidates@[x]).id@,
                        ),
                decreases candidates@.len() - j,
            {
                if crate::id::closer_to(&target, &candidates[j].id, &candidates[b].id) {
                    proof {
                        let jj = j as int;
                        let bb = b as int;
                        crate::id::lemma_dist_lt_implies_le(
                            target@,
                            candidates@[jj].id@,
                            candidates@[bb].id@,
                        );
                        assert forall|x: int| 0 <= x < jj + 1 implies dist_le(
                            target@,
                            candidates@[jj].id@,
                            (#[trigger] candidates@[x]).id@,
                        ) by {
                            if x < jj {
                                crate::id::lemma_dist_le_trans(
                                    target@,
                                    candidates@[jj].id@,
                                    candidates@[bb].id@,
                                    candidates@[x].id@,
                                );
                            } else {
                                crate::id::lemma_seq_lt_irreflexive(
                                    crate::id::xor_seq(target@, candidates@[jj].id@),
                                );
                            }
                        }
                    }
                    b = j;
                }
                j = j + 1;
            }
            best = Some(candidates[b].id.duplicate());
        }
        LookupState { target, want_value, candidates, queried: Vec::new(), best, closing: false }
    }

    /// Hands out the next up-to-`alpha` candidates nearest the target
    /// and marks them queried.  No id is ever handed out twice over the
    /// lookup's whole life.
    pub fn next_batch(&mut self, alpha: usize) -> (r: Vec<PeerInfo>)
        requires
            old(self).wf(),
        ensures
            final(self).wf(),
            final(self).target@ == old(self).target@,
            final(self).want_value == old(self).want_value,
            final(self).best == old(self).best,
            final(self).closing == old(self).closing,
            r@.len() == if alpha as int <= old(self).candidates@.len() {
                alpha as int
            } else {
                old(self).candidates@.len() as int
            },
            // the batch comes from the candidates and was never queried before
            forall|k: int|
                0 <= k < r@.len() ==> peers_have_id(
                    old(self).candidates@,
                    (#[trigger] r@[k]).id@,
                ) && !ids_have_id(old(self).queried@, r@[k].id@),
            // nearest first
            forall|a: int, b: int|
                0 <= a < b < r@.len() ==> dist_le(old(self).target@, r@[a].id@, r@[b].id@),
            // nothing handed out is nearer than what stays back
            forall|a: int, b: int|
                0 <= a < r@.len() && 0 <= b < final(self).candidates@.len() ==> dist_le(
                    old(self).target@,
                    r@[a].id@,
                    final(self).candidates@[b].id@,
                ),
            // ids only ever join the queried list
            old(self).queried@.is_prefix_of(final(self).queried@),
            // the candidate list only shrinks, and by exactly the batch
            final(self).candidates@.len() + r@.len() == old(self).candidates@.len(),
            forall|k: int|
                0 <= k < final(self).candidates@.len() ==> peers_have_id(
                    old(self).candidates@,
                    (#[trigger] final(self).candidates@[k]).id@,
                ),
    {
        let ghost t = self.target@;
        let mut r: Vec<PeerInfo> = Vec::new();
        while r.len() < alpha && self.candidates.len() > 0
            invariant
                self.wf(),
                self.target@ == t,
                self.target == old(self).target,
                self.want_value == old(self).want_value,
                self.best == old(self).best,
                self.closing == old(self).closing,
                r@.len() <= alpha,
                r@.len() + self.candidates@.len() == old(self).candidates@.len(),
                forall|k: int|
                    0 <= k < r@.len() ==> (#[trigger] r@[k].id@).len() == KEY_LEN,
                forall|k: int|
                    0 <= k < r@.len() ==> peers_have_id(
                        old(self).candidates@,
                        (#[trigger] r@[k]).id@,
                    ) && !ids_have_id(old(self).queried@, (#[trigger] r@[k]).id@),
                forall|k1: int, k2: int| 0 <= k1 < k2 < r@.len() ==> r@[k1].id@ != r@[k2].id@,
                forall|k1: int, k2: int|
                    0 <= k1 < r@.len() && 0 <= k2 < self.candidates@.len() ==> r@[k1].id@
                        != self.candidates@[k2].id@,
                forall|a: int, b: int| 0 <= a < b < r@.len() ==> dist_le(t, r@[a].id@, r@[b].id@),
                forall|a: int, b: int|
                    0 <= a < r@.len() && 0 <= b < self.candidates@.len() ==> dist_le(
                        t,
                        r@[a].id@,
                        self.candidates@[b].id@,
                    ),
                old(self).queried@.is_prefix_of(self.queried@),
                forall|k: int|
                    0 <= k < self.candidates@.len() ==> peers_have_id(
                        old(self).candidates@,
                        (#[trigger] self.candidates@[k]).id@,
                    ),
            decreases self.candidates@.len(),
        {
            // nearest remaining candidate
            let mut b: usize = 0;
            let mut j: usize = 1;
            proof {
                crate::id::lemma_seq_lt_irreflexive(
                    crate::id::xor_seq(t, self.candidates@[0].id@),
                );
            }
            while j < self.candidates.len()
                invariant
                    t.len() == KEY_LEN,
                    self.target@ == t,
                    self.candidates@.len() > 0,
                    b < self.candidates@.len(),
                    j <= self.candidates@.len(),
                    forall|k: int|
                        0 <= k < self.candidates@.len() ==> (
                        #[trigger] self.candidates@[k].id@).len() == KEY_LEN,
                    forall|x: int|
                        0 <= x < j ==> dist_le(
                            t,
                            self.candidates@[b as int].id@,
                            (#[trigger] self.candidates@[x]).id@,
                        ),
                decreases self.candidates@.len() - j,
            {
                if crate::id::closer_to(&self.target, &self.candidates[j].id, &self.candidates[b].id) {
                    proof {
                        let jj = j as int;
                        let bb = b as int;
                        crate::id::lemma_dist_lt_implies_le(
                            t,
                            self.candidates@[jj].id@,
                            self.candidates@[bb].id@,
                        );
                        assert forall|x: int| 0 <= x < jj + 1 implies dist_le(
                            t,
                            self.candidates@[jj].id@,
                            (#[trigger] self.candidates@[x]).id@,
                        ) by {
                            if x < jj {
                                crate::id::lemma_dist_le_trans(
                                    t,
                                    self.candidates@[jj].id@,
                                    self.candidates@[bb].id@,
                                    self.candidates@[x].id@,
                                );
                            } else {
                                crate::id::lemma_seq_lt_irreflexive(
                                    crate::id::xor_seq(t, self.candidates@[jj].id@),
                                );
                            }
                        }
                    }
                    b = j;
                }
                j = j + 1;
            }
            let ghost cands_old = self.candidates@;
            let ghost r_old = r@;
            let ghost q_old = self.queried@;
            let chosen = self.candidates.remove(b);
            self.queried.push(chosen.id.duplicate());
            r.push(chosen);
            proof {
                let bb = b as int;
                let nid = cands_old[bb].id@;
                let oldq = old(self).queried@;
                assert(self.candidates@ == cands_old.remove(bb));
                assert(r@ == r_old.push(cands_old[bb]));
                assert(self.queried@ == q_old.push(self.queried@.last()));
                assert(self.queried@.last()@ == nid);
                // the queried list keeps growing at the end only
                assert(oldq.is_prefix_of(self.queried@)) by {
                    assert(oldq =~= q_old.subrange(0, oldq.len() as int));
                    assert(q_old.subrange(0, oldq.len() as int) =~= self.queried@.subrange(
                        0,
                        oldq.len() as int,
                    ));
                }
                // the chosen peer was a candidate at entry, hence from the start
                assert(peers_have_id(old(self).candidates@, nid));
                assert(!ids_have_id(q_old, nid));
                assert(!ids_have_id(oldq, nid)) by {
                    if ids_have_id(oldq, nid) {
                        let y = choose|y: int| 0 <= y < oldq.len() && (#[trigger] oldq[y])@ == nid;
                        assert(oldq =~= q_old.subrange(0, oldq.len() as int));
                        assert(q_old[y] == oldq[y]);
                    }
                }
                // remaining candidates come from the start set
                assert forall|k: int|
                    0 <= k < self.candidates@.len() implies peers_have_id(
                    old(self).candidates@,
                    (#[trigger] self.candidates@[k]).id@,
                ) by {
                    let y = if k < bb {
                        k
                    } else {
                        k + 1
                    };
                    assert(self.candidates@[k] == cands_old[y]);
                }
                // remaining candidates stay clear of the queried ids
                assert forall|k: int|
                    0 <= k < self.candidates@.len() implies !ids_have_id(
                    self.queried@,
                    (#[trigger] self.candidates@[k]).id@,
                ) by {
                    let y = if k < bb {
                        k
                    } else {
                        k + 1
                    };
                    assert(self.candidates@[k] == cands_old[y]);
                    assert(!ids_have_id(q_old, cands_old[y].id@));
                    assert(cands_old[y].id@ != nid);
                    if ids_have_id(self.queried@, cands_old[y].id@) {
                        let x = choose|x: int|
                            0 <= x < self.queried@.len() && (#[trigger] self.queried@[x])@
                                == cands_old[y].id@;
                        if x < self.queried@.len() - 1 {
                            assert(q_old[x]@ == cands_old[y].id@);
                        }
                    }
                }
                // the batch came from the start candidates and was never queried
                assert forall|k: int| 0 <= k < r@.len() implies (peers_have_id(
                    old(self).candidates@,
                    (#[trigger] r@[k]).id@,
                ) && !ids_have_id(oldq, r@[k].id@)) by {
                    if k < r@.len() - 1 {
                        assert(r@[k] == r_old[k]);
                    } else {
                        assert(r@[k] == cands_old[bb]);
                    }
                }
                // the batch ids stay pairwise distinct and apart from the rest
                assert forall|k1: int, k2: int|
                    0 <= k1 < r@.len() && 0 <= k2 < self.candidates@.len() implies r@[k1].id@
                    != self.candidates@[k2].id@ by {
                    let y2 = if k2 < bb {
                        k2
                    } else {
                        k2 + 1
                    };
                    assert(self.candidates@[k2] == cands_old[y2]);
                    if k1 < r@.len() - 1 {
                        assert(r@[k1] == r_old[k1]);
                    } else {
                        assert(r@[k1] == cands_old[bb]);
                    }
                }
                assert forall|k1: int, k2: int| 0 <= k1 < k2 < r@.len() implies r@[k1].id@
                    != r@[k2].id@ by {
                    assert(r@[k1] == r_old[k1]);
                    if k2 < r@.len() - 1 {
                        assert(r@[k2] == r_old[k2]);
                    } else {
                        assert(r@[k2] == cands_old[bb]);
                    }
                }
                assert forall|a: int, b2: int|
                    0 <= a < r@.len() && 0 <= b2 < self.candidates@.len() implies dist_le(
                    t,
                    r@[a].id@,
                    self.candidates@[b2].id@,
                ) by {
                    let y2 = if b2 < bb {
                        b2
                    } else {
                        b2 + 1
                    };
                    assert(self.candidates@[b2] == cands_old[y2]);
                    if a < r@.len() - 1 {
                        assert(r@[a] == r_old[a]);
                    } else {
                        assert(r@[a] == cands_old[bb]);
                    }
                }
                assert forall|a: int, b2: int| 0 <= a < b2 < r@.len() implies dist_le(
                    t,
                    r@[a].id@,
                    r@[b2].id@,
                ) by {
                    assert(r@[a] == r_old[a]);
                    if b2 < r@.len() - 1 {
                        assert(r@[b2] == r_old[b2]);
                    } else {
                        assert(r@[b2] == cands_old[bb]);
                    }
                }
            }
        }
        r
    }

    /// Merges contacts learnt from a reply into the candidate set:
    /// every id not yet known and never queried joins; queried ids are
    /// never re-added, so no contact is dispatched twice.
    pub fn on_contacts(&mut self, contacts: &Vec<PeerInfo>)
        requires
            old(self).wf(),
            forall|k: int| 0 <= k < contacts@.len() ==> (#[trigger] contacts@[k]).wf(),
        ensures
            final(self).wf(),
            final(self).target@ == old(self).target@,
            final(self).want_value == old(self).want_value,
            final(self).best == old(self).best,
            final(self).closing == old(self).closing,
            final(self).queried@ == old(self).queried@,
            forall|id: Seq<u8>|
                peers_have_id(final(self).candidates@, id) <==> peers_have_id(
                    old(self).candidates@,
                    id,
                ) || (peers_have_id(contacts@, id) && !ids_have_id(old(self).queried@, id)),
    {
        let mut i: usize = 0;
        while i < contacts.len()
            invariant
                self.wf(),
                self.target == old(self).target,
                self.want_value == old(self).want_value,
                self.best == old(self).best,
                self.closing == old(self).closing,
                self.queried@ == old(self).queried@,
                i <= contacts@.len(),
                forall|k: int| 0 <= k < contacts@.len() ==> (#[trigger] contacts@[k]).wf(),
                forall|id: Seq<u8>|
                    peers_have_id(self.candidates@, id) <==> peers_have_id(
                        old(self).candidates@,
                        id,
                    ) || (peers_have_id(contacts@.take(i as int), id) && !ids_have_id(
                        old(self).queried@,
                        id,
                    )),
            decreases contacts@.len() - i,
        {
            let c = &contacts[i];
            let ghost cands_old = self.candidates@;
            let known = self.contains_candidate(&c.id) || self.was_queried(&c.id);
            if !known {
                self.candidates.push(c.duplicate());
            }
            proof {
                let ii = i as int;
                assert(contacts@.take(ii + 1).last() == contacts@[ii]);
                assert forall|id: Seq<u8>|
                    peers_have_id(self.candidates@, id) <==> (peers_have_id(
                        old(self).candidates@,
                        id,
                    ) || (peers_have_id(contacts@.take(ii + 1), id) && !ids_have_id(
                        old(self).queried@,
                        id,
                    ))) by {
                    if peers_have_id(self.candidates@, id) {
                        let x = choose|x: int|
                            0 <= x < self.candidates@.len() && self.candidates@[x].id@ == id;
                        if x < cands_old.len() {
                            assert(cands_old[x].id@ == id);
                            assert(peers_have_id(cands_old, id));
                        } else {
                            assert(self.candidates@[x].id@ == contacts@[ii].id@);
                            assert(contacts@.take(ii + 1)[ii] == contacts@[ii]);
                            assert(peers_have_id(contacts@.take(ii + 1), id));
                        }
                    }
                    if peers_have_id(cands_old, id) {
                        let x = choose|x: int| 0 <= x < cands_old.len() && cands_old[x].id@ == id;
                        assert(self.candidates@[x].id@ == id);
                    }
                    if peers_have_id(contacts@.take(ii + 1), id) && !ids_have_id(
                        old(self).queried@,
                        id,
                    ) {
                        let x = choose|x: int|
                            0 <= x < contacts@.take(ii + 1).len() && (#[trigger] contacts@.take(
                                ii + 1,
                            )[x]).id@ == id;
                        if x < ii {
                            assert(contacts@.take(ii)[x].id@ == id);
                            assert(peers_have_id(contacts@.take(ii), id));
                        } else {
                            // the current contact: it was added now unless already known
                            if !peers_have_id(self.candidates@, id) {
                                assert(peers_have_id(cands_old, id) || ids_have_id(
                                    old(self).queried@,
                                    id,
                                )) by {
                                    if !peers_have_id(cands_old, id) && !ids_have_id(
                                        old(self).queried@,
                                        id,
                                    ) {
                                        assert(self.candidates@.last().id@ == id);
                                    }
                                }
                                let y = choose|y: int|
                                    0 <= y < cands_old.len() && cands_old[y].id@ == id;
                                assert(self.candidates@[y].id@ == id);
                            }
                        }
                    }
                }
            }
            i = i + 1;
        }
        proof {
            assert(contacts@.take(contacts@.len() as int) =~= contacts@);
        }
    }

    /// The width of the next round: `ALPHA` while the lookup makes
    /// progress, the full `K_PARAM` for the one closing round.
    pub fn next_width(&self) -> (r: usize)
        ensures
            r == if self.closing {
                K_PARAM
            } else {
                ALPHA
            },
    {
        if self.closing {
            K_PARAM
        } else {
            ALPHA
        }
    }

    /// Settles a finished round; `progress` says whether any contact
    /// learnt this round came strictly closer than everything seen
    /// before.  Returns whether the lookup must now stop: the first
    /// stalled round starts the closing round, and the lookup stops
    /// once that closing round has run, whatever it brought.
    pub fn round_done(&mut self, progress: bool) -> (r: bool)
        requires
            old(self).wf(),
        ensures
            final(self).wf(),
            final(self).target == old(self).target,
            final(self).want_value == old(self).want_value,
            final(self).candidates == old(self).candidates,
            final(self).queried == old(self).queried,
            final(self).best == old(self).best,
            r == old(self).closing,
            final(self).closing == (old(self).closing || !progress),
    {
        let stop = self.closing;
        if !progress {
            self.closing = true;
        }
        stop
    }

    /// Whether an id is among the unqueried candidates.
    pub fn contains_candidate(&self, id: &NodeId) -> (r: bool)
        ensures
            r == peers_have_id(self.candidates@, id@),
    {
        let mut k: usize = 0;
        while k < self.candidates.len()
            invariant
                k <= self.candidates@.len(),
                forall|x: int| 0 <= x < k ==> (#[trigger] self.candidates@[x]).id@ != id@,
            decreases self.candidates@.len() - k,
        {
            if self.candidates[k].id.equals(id) {
                return true;
            }
            k = k + 1;
        }
        false
    }

    /// Whether an id has already been dispatched in this lookup.
    pub fn was_queried(&self, id: &NodeId) -> (r: bool)
        ensures
            r == ids_have_id(self.queried@, id@),
    {
        let mut k: usize = 0;
        while k < self.queried.len()
            invariant
                k <= self.queried@.len(),
                forall|x: int| 0 <= x < k ==> (#[trigger] self.queried@[x])@ != id@,
            decreases self.queried@.len() - k,
        {
            if self.queried[k].equals(id) {
                return true;
            }
            k = k + 1;
        }
        false
    }

    /// Records the closest id seen so far; the recorded id only ever
    /// gets closer to the target.  Returns whether `c` made progress:
    /// whether it is strictly closer than everything seen before.
    pub fn update_best(&mut self, c: &PeerInfo) -> (r: bool)
        requires
            old(self).wf(),
            c.wf(),
        ensures
            final(self).wf(),
            final(self).target@ == old(self).target@,
            final(self).want_value == old(self).want_value,
            final(self).closing == old(self).closing,
            final(self).candidates@ == old(self).candidates@,
            final(self).queried@ == old(self).queried@,
            match old(self).best {
                None => r == true && (final(self).best matches Some(b2) && b2@ == c.id@),
                Some(b) => {
                    &&& r == dist_lt(old(self).target@, c.id@, b@)
                    &&& (r ==> (final(self).best matches Some(b2) && b2@ == c.id@))
                    &&& (!r ==> (final(self).best matches Some(b2) && b2@ == b@))
                },
            },
    {
        match &self.best {
            None => {
                self.best = Some(c.id.duplicate());
                true
            },
            Some(b) => {
                if crate::id::closer_to(&self.target, &c.id, b) {
                    self.best = Some(c.id.duplicate());
                    true
                } else {
                    false
                }
            },
        }
    }
}

} // verus!
