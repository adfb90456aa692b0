//! Node identity and the XOR distance metric.
//!
//! A `NodeId` is a 256-bit identifier; the distance between two ids is
//! their bitwise XOR, ordered as a big-endian unsigned integer.  The
//! bucket index of a contact is the position of the most significant
//! set bit of the distance to it.
use vstd::prelude::*;

verus! {

/// Number of bytes in a node identifier (256 bits).
pub const KEY_LEN: usize = 32;

/// A fixed-length node identifier, also the coordinate space for keys.
pub struct NodeId {
    pub bytes: Vec<u8>,
}

impl View for NodeId {
    type V = Seq<u8>;

    open spec fn view(&self) -> Seq<u8> {
        self.bytes@
    }
}

impl NodeId {
    /// A well-formed id holds exactly `KEY_LEN` bytes.
    pub open spec fn wf(&self) -> bool {
        self@.len() == KEY_LEN
    }

    /// Builds an id from its raw bytes; fails unless exactly `KEY_LEN` bytes are given.
    pub fn from_bytes(bytes: Vec<u8>) -> (r: Option<NodeId>)
        ensures
            bytes@.len() == KEY_LEN ==> (r matches Some(id) && id@ == bytes@ && id.wf()),
            bytes@.len() != KEY_LEN ==> r is None,
    {
        if bytes.len() == KEY_LEN {
            Some(NodeId { bytes })
        } else {
            None
        }
    }

    /// Copies the id.
    pub fn duplicate(&self) -> (r: NodeId)
        ensures
            r@ == self@,
    {
        let mut out: Vec<u8> = Vec::new();
        let mut i: usize = 0;
        while i < self.bytes.len()
            invariant
                i <= self.bytes@.len(),
                out@ == self.bytes@.subrange(0, i as int),
            decreases self.bytes@.len() - i,
        {
            out.push(self.bytes[i]);
            i = i + 1;
        }
        assert(out@ =~= self.bytes@);
        NodeId { bytes: out }
    }

    /// Byte-for-byte equality of two ids.
    pub fn equals(&self, other: &NodeId) -> (r: bool)
        ensures
            r == (self@ == other@),
    {
        bytes_eq(&self.bytes, &other.bytes)
    }
}

/// Copies a byte vector.
pub fn copy_bytes(v: &Vec<u8>) -> (r: Vec<u8>)
    ensures
        r@ == v@,
{
    let mut out: Vec<u8> = Vec::new();
    let mut i: usize = 0;
    while i < v.len()
        invariant
            i <= v@.len(),
            out@ == v@.subrange(0, i as int),
        decreases v@.len() - i,
    {
        out.push(v[i]);
        i = i + 1;
    }
    assert(out@ =~= v@);
    out
}

/// Byte-for-byte equality of two byte vectors.
pub fn bytes_eq(a: &Vec<u8>, b: &Vec<u8>) -> (r: bool)
    ensures
        r == (a@ == b@),
{
    if a.len() != b.len() {
        return false;
    }
    let mut i: usize = 0;
    while i < a.len()
        invariant
            a@.len() == b@.len(),
            i <= a@.len(),
            forall|j: int| 0 <= j < i ==> a@[j] == b@[j],
        decreases a@.len() - i,
    {
        if a[i] != b[i] {
            return false;
        }
        i = i + 1;
    }
    proof {
        assert(a@ =~= b@);
    }
    true
}

/// The XOR of two equal-length byte strings, pointwise.
pub open spec fn xor_seq(a: Seq<u8>, b: Seq<u8>) -> Seq<u8> {
    Seq::new(a.len(), |i: int| a[i] ^ b[i])
}

/// The distance between two ids: their bitwise XOR.
pub fn distance(a: &NodeId, b: &NodeId) -> (r: Vec<u8>)
    requires
        a.wf(),
        b.wf(),
    ensures
        r@ == xor_seq(a@, b@),
        r@.len() == KEY_LEN,
{
    let mut out: Vec<u8> = Vec::new();
    let mut i: usize = 0;
    while i < KEY_LEN
        invariant
            a@.len() == KEY_LEN,
            b@.len() == KEY_LEN,
            i <= KEY_LEN,
            out@.len() == i,
            forall|j: int| 0 <= j < i ==> out@[j] == (a@[j] ^ b@[j]),
        decreases KEY_LEN - i,
    {
        out.push(a.bytes[i] ^ b.bytes[i]);
        i = i + 1;
    }
    proof {
        assert(out@ =~= xor_seq(a@, b@));
    }
    out
}

/// Whether every byte of a distance is zero.
pub open spec fn all_zero(s: Seq<u8>) -> bool {
    forall|i: int| 0 <= i < s.len() ==> s[i] == 0
}

/// Distance law: the distance from an id to itself is zero.
///
/// For every id `a`, `xor_seq(a, a)` is the all-zero string.
pub proof fn lemma_distance_self_zero(a: Seq<u8>)
    ensures
        all_zero(xor_seq(a, a)),
{
    assert forall|i: int| 0 <= i < a.len() implies xor_seq(a, a)[i] == 0 by {
        let x = a[i];
        assert((x ^ x) == 0) by (bit_vector);
    }
}

/// Distance law: the distance is symmetric.
///
/// For all equal-length ids `a`, `b`: `xor_seq(a, b) == xor_seq(b, a)`.
pub proof fn lemma_distance_symmetric(a: Seq<u8>, b: Seq<u8>)
    requires
        a.len() == b.len(),
    ensures
        xor_seq(a, b) == xor_seq(b, a),
{
    assert forall|i: int| 0 <= i < a.len() implies xor_seq(a, b)[i] == xor_seq(b, a)[i] by {
        let x = a[i];
        let y = b[i];
        assert((x ^ y) == (y ^ x)) by (bit_vector);
    }
    assert(xor_seq(a, b) =~= xor_seq(b, a));
}

/// Distance law: the distance is zero exactly between an id and itself.
///
/// For all equal-length ids `a`, `b`: `xor_seq(a, b)` is all zero
/// if and only if `a == b`.
pub proof fn lemma_distance_zero_iff_eq(a: Seq<u8>, b: Seq<u8>)
    requires
        a.len() == b.len(),
    ensures
        all_zero(xor_seq(a, b)) <==> a == b,
{
    if all_zero(xor_seq(a, b)) {
        assert forall|i: int| 0 <= i < a.len() implies a[i] == b[i] by {
            let x = a[i];
            let y = b[i];
            assert(xor_seq(a, b)[i] == (x ^ y));
            assert((x ^ y) == 0);
            assert((x ^ y) == 0 ==> x == y) by (bit_vector);
        }
        assert(a =~= b);
    } else {
        let i = choose|i: int| 0 <= i < a.len() && xor_seq(a, b)[i] != 0;
        let x = a[i];
        let y = b[i];
        assert((x ^ y) != 0 ==> x != y) by (bit_vector);
    }
}

/// Equal distances to a common point come only from equal ids.
pub proof fn lemma_distance_injective(t: Seq<u8>, a: Seq<u8>, b: Seq<u8>)
    requires
        t.len() == a.len(),
        t.len() == b.len(),
        xor_seq(t, a) == xor_seq(t, b),
    ensures
        a == b,
{
    assert forall|i: int| 0 <= i < a.len() implies a[i] == b[i] by {
        let w = t[i];
        let x = a[i];
        let y = b[i];
        assert(xor_seq(t, a)[i] == (w ^ x));
        assert(xor_seq(t, b)[i] == (w ^ y));
        assert((w ^ x) == (w ^ y) ==> x == y) by (bit_vector);
    }
    assert(a =~= b);
}

/// Strict lexicographic order on equal-length byte strings; for
/// distances this coincides with the big-endian numeric order.
pub open spec fn seq_lt(a: Seq<u8>, b: Seq<u8>) -> bool
    decreases a.len(),
{
    if a.len() == 0 || b.len() == 0 {
        false
    } else if a[0] < b[0] {
        true
    } else if a[0] > b[0] {
        false
    } else {
        seq_lt(a.skip(1), b.skip(1))
    }
}

/// The order is irreflexive.
pub proof fn lemma_seq_lt_irreflexive(a: Seq<u8>)
    ensures
        !seq_lt(a, a),
    decreases a.len(),
{
    if a.len() > 0 {
        lemma_seq_lt_irreflexive(a.skip(1));
    }
}

/// Equal-length byte strings are totally ordered: two distinct ones
/// compare strictly one way or the other.
pub proof fn lemma_seq_lt_total(a: Seq<u8>, b: Seq<u8>)
    requires
        a.len() == b.len(),
    ensures
        a == b || seq_lt(a, b) || seq_lt(b, a),
    decreases a.len(),
{
    if a.len() > 0 {
        if a[0] == b[0] {
            lemma_seq_lt_total(a.skip(1), b.skip(1));
            if a.skip(1) == b.skip(1) {
                assert forall|i: int| 0 <= i < a.len() implies a[i] == b[i] by {
                    if i > 0 {
                        assert(a.skip(1)[i - 1] == a[i]);
                        assert(b.skip(1)[i - 1] == b[i]);
                    }
                }
                assert(a =~= b);
            }
        }
    } else {
        assert(a =~= b);
    }
}

/// The order is transitive.
pub proof fn lemma_seq_lt_transitive(a: Seq<u8>, b: Seq<u8>, c: Seq<u8>)
    requires
        a.len() == b.len(),
        b.len() == c.len(),
        seq_lt(a, b),
        seq_lt(b, c),
    ensures
        seq_lt(a, c),
    decreases a.len(),
{
    if a.len() > 0 {
        if a[0] == b[0] && b[0] == c[0] {
            lemma_seq_lt_transitive(a.skip(1), b.skip(1), c.skip(1));
        }
    }
}

/// The order is asymmetric.
pub proof fn lemma_seq_lt_asymmetric(a: Seq<u8>, b: Seq<u8>)
    requires
        a.len() == b.len(),
        seq_lt(a, b),
    ensures
        !seq_lt(b, a),
    decreases a.len(),
{
    if a.len() > 0 && a[0] == b[0] {
        lemma_seq_lt_asymmetric(a.skip(1), b.skip(1));
    }
}

/// Compares two equal-length byte vectors in lexicographic order.
pub fn bytes_lt(a: &Vec<u8>, b: &Vec<u8>) -> (r: bool)
    requires
        a@.len() == b@.len(),
    ensures
        r == seq_lt(a@, b@),
{
    proof {
        assert(a@.skip(0) =~= a@);
        assert(b@.skip(0) =~= b@);
    }
    let mut i: usize = 0;
    while i < a.len()
        invariant
            a@.len() == b@.len(),
            i <= a@.len(),
            forall|j: int| 0 <= j < i ==> a@[j] == b@[j],
            seq_lt(a@, b@) == seq_lt(a@.skip(i as int), b@.skip(i as int)),
        decreases a@.len() - i,
    {
        let x = a[i];
        let y = b[i];
        if x < y {
            assert(seq_lt(a@.skip(i as int), b@.skip(i as int)));
            return true;
        }
        if x > y {
            assert(!seq_lt(a@.skip(i as int), b@.skip(i as int)));
            return false;
        }
        proof {
            assert(a@.skip(i as int).skip(1) =~= a@.skip(i + 1));
            assert(b@.skip(i as int).skip(1) =~= b@.skip(i + 1));
        }
        i = i + 1;
    }
    proof {
        lemma_seq_lt_irreflexive(a@.skip(i as int));
    }
    false
}

/// Whether `a` is strictly closer to `t` than `b` is, under the XOR metric.
pub open spec fn dist_lt(t: Seq<u8>, a: Seq<u8>, b: Seq<u8>) -> bool {
    seq_lt(xor_seq(t, a), xor_seq(t, b))
}

/// Decides whether `a` is strictly closer to `t` than `b` is.
pub fn closer_to(t: &NodeId, a: &NodeId, b: &NodeId) -> (r: bool)
    requires
        t.wf(),
        a.wf(),
        b.wf(),
    ensures
        r == dist_lt(t@, a@, b@),
{
    let da = distance(t, a);
    let db = distance(t, b);
    bytes_lt(&da, &db)
}

/// Whether `a` is at most as far from `t` as `b` is.
pub open spec fn dist_le(t: Seq<u8>, a: Seq<u8>, b: Seq<u8>) -> bool {
    !dist_lt(t, b, a)
}

/// The closeness order is transitive.
pub proof fn lemma_dist_le_trans(t: Seq<u8>, a: Seq<u8>, b: Seq<u8>, c: Seq<u8>)
    requires
        t.len() == a.len(),
        t.len() == b.len(),
        t.len() == c.len(),
        dist_le(t, a, b),
        dist_le(t, b, c),
    ensures
        dist_le(t, a, c),
{
    let da = xor_seq(t, a);
    let db = xor_seq(t, b);
    let dc = xor_seq(t, c);
    if seq_lt(dc, da) {
        lemma_seq_lt_total(da, db);
        if da == db {
            assert(seq_lt(dc, db));
        } else {
            lemma_seq_lt_transitive(dc, da, db);
        }
    }
}

/// A strictly closer id is at most as far.
pub proof fn lemma_dist_lt_implies_le(t: Seq<u8>, a: Seq<u8>, b: Seq<u8>)
    requires
        t.len() == a.len(),
        t.len() == b.len(),
        dist_lt(t, a, b),
    ensures
        dist_le(t, a, b),
{
    lemma_seq_lt_asymmetric(xor_seq(t, a), xor_seq(t, b));
}

/// Two ids at the same distance from a common point are the same id.
pub proof fn lemma_dist_le_antisymmetric(t: Seq<u8>, a: Seq<u8>, b: Seq<u8>)
    requires
        t.len() == a.len(),
        t.len() == b.len(),
        dist_le(t, a, b),
        dist_le(t, b, a),
    ensures
        a == b,
{
    lemma_seq_lt_total(xor_seq(t, a), xor_seq(t, b));
    lemma_distance_injective(t, a, b);
}

/// The most significant set bit of a nonzero byte, as a position in `[0, 8)`.
pub open spec fn msb8(x: u8) -> int {
    if x >= 0x80 {
        7
    } else if x >= 0x40 {
        6
    } else if x >= 0x20 {
        5
    } else if x >= 0x10 {
        4
    } else if x >= 0x08 {
        3
    } else if x >= 0x04 {
        2
    } else if x >= 0x02 {
        1
    } else {
        0
    }
}

/// The position of the most significant set bit of `xor_seq(a, b)`,
/// counting bit 0 as the least significant bit of the last byte;
/// `-1` when the two strings are equal.
pub open spec fn bucket_of(a: Seq<u8>, b: Seq<u8>) -> int
    decreases a.len(),
{
    if a.len() == 0 || b.len() == 0 {
        -1
    } else if a[0] != b[0] {
        8 * (a.len() - 1) + msb8(a[0] ^ b[0])
    } else {
        bucket_of(a.skip(1), b.skip(1))
    }
}

/// The bucket index is `-1` exactly between equal strings, and otherwise
/// lies in `[0, 8 * len)`.
pub proof fn lemma_bucket_of_range(a: Seq<u8>, b: Seq<u8>)
    requires
        a.len() == b.len(),
    ensures
        (bucket_of(a, b) == -1) <==> (a == b),
        a != b ==> 0 <= bucket_of(a, b) < 8 * a.len(),
    decreases a.len(),
{
    if a.len() == 0 {
        assert(a =~= b);
    } else if a[0] != b[0] {
        let x = a[0];
        let y = b[0];
        assert(msb8(x ^ y) >= 0);
    } else {
        lemma_bucket_of_range(a.skip(1), b.skip(1));
        if a.skip(1) == b.skip(1) {
            assert forall|i: int| 0 <= i < a.len() implies a[i] == b[i] by {
                if i > 0 {
                    assert(a.skip(1)[i - 1] == a[i]);
                    assert(b.skip(1)[i - 1] == b[i]);
                }
            }
            assert(a =~= b);
        }
    }
}

/// Finds the most significant set bit of a nonzero byte.
fn msb8_exec(x: u8) -> (r: u8)
    ensures
        r == msb8(x),
{
    if x >= 0x80 {
        7
    } else if x >= 0x40 {
        6
    } else if x >= 0x20 {
        5
    } else if x >= 0x10 {
        4
    } else if x >= 0x08 {
        3
    } else if x >= 0x04 {
        2
    } else if x >= 0x02 {
        1
    } else {
        0
    }
}

/// The index, in `[0, 256)`, of the routing-table bucket that `other`
/// falls into relative to `this`; `None` exactly when the two ids are
/// equal (a node keeps no bucket for itself).
pub fn bucket_index(this: &NodeId, other: &NodeId) -> (r: Option<usize>)
    requires
        this.wf(),
        other.wf(),
    ensures
        match r {
            Some(ix) => ix == bucket_of(this@, other@) && ix < 8 * KEY_LEN && this@ != other@,
            None => this@ == other@,
        },
{
    proof {
        assert(this@.skip(0) =~= this@);
        assert(other@.skip(0) =~= other@);
    }
    let mut i: usize = 0;
    while i < KEY_LEN
        invariant
            this@.len() == KEY_LEN,
            other@.len() == KEY_LEN,
            i <= KEY_LEN,
            forall|j: int| 0 <= j < i ==> this@[j] == other@[j],
            bucket_of(this@, other@) == bucket_of(this@.skip(i as int), other@.skip(i as int)),
        decreases KEY_LEN - i,
    {
        let x = this.bytes[i];
        let y = other.bytes[i];
        if x != y {
            let m = msb8_exec(x ^ y);
            let ix = 8 * (KEY_LEN - 1 - i) + (m as usize);
            proof {
                assert(this@.skip(i as int).len() == KEY_LEN - i);
                lemma_bucket_of_range(this@, other@);
            }
            return Some(ix);
        }
        proof {
            assert(this@.skip(i as int).skip(1) =~= this@.skip(i + 1));
            assert(other@.skip(i as int).skip(1) =~= other@.skip(i + 1));
        }
        i = i + 1;
    }
    proof {
        assert(this@ =~= other@);
    }
    None
}

} // verus!
