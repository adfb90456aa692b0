//! The local value store: the key-value pairs this node currently holds.
use vstd::prelude::*;

verus! {

/// One stored pair.  Keys and values are byte strings; the string
/// façade encodes to and decodes from UTF-8 at the boundary.
pub struct StoreEntry {
    pub key: Vec<u8>,
    pub value: Vec<u8>,
}

/// An in-memory key-value store with last-writer-wins upserts and no
/// expiration: entries live until the owning node does.
pub struct KvStore {
    pub entries: Vec<StoreEntry>,
}

/// Whether some entry of `s` holds the key `k`.
pub open spec fn has_key(s: Seq<StoreEntry>, k: Seq<u8>) -> bool {
    exists|i: int| 0 <= i < s.len() && s[i].key@ == k
}

/// The value stored under `k`, where `has_key(s, k)` holds and keys are unique.
pub open spec fn value_of(s: Seq<StoreEntry>, k: Seq<u8>) -> Seq<u8> {
    let i = choose|i: int| 0 <= i < s.len() && s[i].key@ == k;
    s[i].value@
}

/// No key occurs in two entries.
pub open spec fn keys_unique(s: Seq<StoreEntry>) -> bool {
    forall|i: int, j: int| 0 <= i < j < s.len() ==> s[i].key@ != s[j].key@
}

impl View for KvStore {
    type V = Map<Seq<u8>, Seq<u8>>;

    /// The store as a mathematical map from key to value.
    open spec fn view(&self) -> Map<Seq<u8>, Seq<u8>> {
        Map::new(|k: Seq<u8>| has_key(self.entries@, k), |k: Seq<u8>| value_of(self.entries@, k))
    }
}

impl KvStore {
    /// Internal invariant: keys are unique, so every lookup is determined.
    pub open spec fn wf(&self) -> bool {
        keys_unique(self.entries@)
    }

    /// An empty store.
    pub fn new() -> (r: KvStore)
        ensures
            r.wf(),
            r@ == Map::<Seq<u8>, Seq<u8>>::empty(),
    {
        let r = KvStore { entries: Vec::new() };
        proof {
            assert(r@ =~= Map::<Seq<u8>, Seq<u8>>::empty());
        }
        r
    }

    /// Unconditional upsert: stores `value` under `key`, overwriting
    /// any prior value for the same key.
    pub fn put_local(&mut self, key: Vec<u8>, value: Vec<u8>)
        requires
            old(self).wf(),
        ensures
            final(self).wf(),
            final(self)@ == old(self)@.insert(key@, value@),
    {
        let ghost s0 = self.entries@;
        let mut i: usize = 0;
        while i < self.entries.len()
            invariant
                self.entries@ == s0,
                s0 == old(self).entries@,
                i <= s0.len(),
                keys_unique(s0),
                forall|j: int| 0 <= j < i ==> s0[j].key@ != key@,
            decreases s0.len() - i,
        {
            if crate::id::bytes_eq(&self.entries[i].key, &key) {
                let _old_entry = self.entries.remove(i);
                self.entries.push(StoreEntry { key, value });
                proof {
                    let s1 = self.entries@;
                    let ghost ii = i as int;
                    assert(s1.len() == s0.len());
                    assert(s1.last().key@ == s1[s0.len() - 1].key@);
                    assert forall|a: int, b: int| 0 <= a < b < s1.len() implies s1[a].key@
                        != s1[b].key@ by {
                        if b < s1.len() - 1 {
                            let a0 = if a < ii {
                                a
                            } else {
                                a + 1
                            };
                            let b0 = if b < ii {
                                b
                            } else {
                                b + 1
                            };
                            assert(s1[a] == s0[a0] && s1[b] == s0[b0]);
                        } else {
                            let a0 = if a < ii {
                                a
                            } else {
                                a + 1
                            };
                            assert(s1[a] == s0[a0]);
                        }
                    }
                    assert(self.wf());
                    assert forall|k: Seq<u8>| #[trigger] has_key(s1, k) <==> has_key(s0, k) || k
                        == s1.last().key@ by {
                        if has_key(s1, k) {
                            let x = choose|x: int| 0 <= x < s1.len() && s1[x].key@ == k;
                            if x < s1.len() - 1 {
                                let x0 = if x < ii {
                                    x
                                } else {
                                    x + 1
                                };
                                assert(s0[x0].key@ == k);
                            }
                        }
                        if has_key(s0, k) {
                            let x = choose|x: int| 0 <= x < s0.len() && s0[x].key@ == k;
                            if x == ii {
                                assert(s1[s1.len() - 1].key@ == k);
                            } else {
                                let x1 = if x < ii {
                                    x
                                } else {
                                    x - 1
                                };
                                assert(s1[x1].key@ == k);
                            }
                        }
                        if k == s1.last().key@ {
                            assert(s1[s1.len() - 1].key@ == k);
                        }
                    }
                    assert forall|k: Seq<u8>| has_key(s1, k) implies #[trigger] value_of(s1, k)
                        == (if k == s1.last().key@ {
                        s1.last().value@
                    } else {
                        value_of(s0, k)
                    }) by {
                        let x = choose|x: int| 0 <= x < s1.len() && s1[x].key@ == k;
                        if k == s1.last().key@ {
                            assert(s1[s1.len() - 1].key@ == k);
                            assert(x == s1.len() - 1);
                        } else {
                            assert(x < s1.len() - 1);
                            let x0 = if x < ii {
                                x
                            } else {
                                x + 1
                            };
                            assert(s0[x0].key@ == k && s0[x0].value@ == s1[x].value@);
                            let y = choose|y: int| 0 <= y < s0.len() && s0[y].key@ == k;
                            assert(y == x0);
                        }
                    }
                    let m1 = self@;
                    let m2 = old(self)@.insert(s1.last().key@, s1.last().value@);
                    assert forall|k: Seq<u8>| m1.dom().contains(k) <==> m2.dom().contains(
                        k,
                    ) by {
                        assert(m1.dom().contains(k) == has_key(s1, k));
                        assert(old(self)@.dom().contains(k) == has_key(s0, k));
                    }
                    assert forall|k: Seq<u8>| m1.dom().contains(k) implies m1[k] == m2[k] by {
                        assert(has_key(s1, k));
                        assert(m1[k] == value_of(s1, k));
                        if k != s1.last().key@ {
                            assert(has_key(s0, k));
                            assert(m2[k] == value_of(s0, k));
                        }
                    }
                    assert(m1 =~= m2);
                }
                return ;
            }
            i = i + 1;
        }
        self.entries.push(StoreEntry { key, value });
        proof {
            let s1 = self.entries@;
            assert forall|a: int, b: int| 0 <= a < b < s1.len() implies s1[a].key@
                != s1[b].key@ by {
                if b < s1.len() - 1 {
                    assert(s1[a] == s0[a] && s1[b] == s0[b]);
                } else {
                    assert(s1[a] == s0[a]);
                }
            }
            assert forall|k: Seq<u8>| #[trigger] has_key(s1, k) <==> has_key(s0, k) || k
                == s1.last().key@ by {
                if has_key(s1, k) {
                    let x = choose|x: int| 0 <= x < s1.len() && s1[x].key@ == k;
                    if x < s1.len() - 1 {
                        assert(s0[x].key@ == k);
                    }
                }
                if has_key(s0, k) {
                    let x = choose|x: int| 0 <= x < s0.len() && s0[x].key@ == k;
                    assert(s1[x].key@ == k);
                }
                if k == s1.last().key@ {
                    assert(s1[s1.len() - 1].key@ == k);
                }
            }
            assert forall|k: Seq<u8>| has_key(s1, k) implies #[trigger] value_of(s1, k)
                == (if k == s1.last().key@ {
                s1.last().value@
            } else {
                value_of(s0, k)
            }) by {
                let x = choose|x: int| 0 <= x < s1.len() && s1[x].key@ == k;
                if k == s1.last().key@ {
                    assert(s1[s1.len() - 1].key@ == k);
                    assert(x == s1.len() - 1);
                } else {
                    assert(x < s1.len() - 1);
                    assert(s0[x].key@ == k && s0[x].value@ == s1[x].value@);
                    let y = choose|y: int| 0 <= y < s0.len() && s0[y].key@ == k;
                    assert(y == x);
                }
            }
            assert(self@ =~= old(self)@.insert(s1.last().key@, s1.last().value@));
        }
    }

    /// Looks the key up; returns the stored value exactly when the key
    /// is present.
    pub fn get_local(&self, key: &Vec<u8>) -> (r: Option<Vec<u8>>)
        requires
            self.wf(),
        ensures
            match r {
                Some(v) => self@.contains_key(key@) && v@ == self@[key@],
                None => !self@.contains_key(key@),
            },
    {
        let mut i: usize = 0;
        while i < self.entries.len()
            invariant
                self.wf(),
                i <= self.entries@.len(),
                forall|j: int| 0 <= j < i ==> self.entries@[j].key@ != key@,
            decreases self.entries@.len() - i,
        {
            if crate::id::bytes_eq(&self.entries[i].key, key) {
                let out = crate::id::copy_bytes(&self.entries[i].value);
                proof {
                    let s = self.entries@;
                    assert(has_key(s, key@));
                    let y = choose|y: int| 0 <= y < s.len() && s[y].key@ == key@;
                    assert(y == i as int);
                    assert(out@ =~= s[i as int].value@);
                }
                return Some(out);
            }
            i = i + 1;
        }
        proof {
            if has_key(self.entries@, key@) {
                let y = choose|y: int|
                    0 <= y < self.entries@.len() && self.entries@[y].key@ == key@;
            }
        }
        None
    }

    /// How many pairs the store holds.
    pub fn len(&self) -> (r: usize)
        ensures
            r == self.entries@.len(),
    {
        self.entries.len()
    }
}

} // verus!
