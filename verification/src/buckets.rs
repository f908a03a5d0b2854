//! Key-ordered time buckets: address sets keyed by an `i64` time key
//! (a day boundary, or an encoded calendar month), kept in strictly
//! ascending key order so a report can be emitted in one ordered sweep.

use vstd::prelude::*;
use crate::ipset::IpSet;
use crate::ipset::ip_set;

verus! {

/// Fold one address set into a bucket map: the bucket for `k` becomes
/// the union of what it held (nothing, if absent) and `s`.
pub open spec fn bucket_add(m: Map<int, Set<u32>>, k: int, s: Set<u32>) -> Map<int, Set<u32>> {
    let s0 = if m.dom().contains(k) {
        m[k]
    } else {
        Set::empty()
    };
    m.insert(k, s0.union(s))
}

/// Address sets keyed by time key, in ascending key order.
pub(crate) struct Buckets {
    pub keys: Vec<i64>,
    pub sets: Vec<IpSet>,
}

impl Buckets {
    /// Parallel vectors, strictly ascending (hence unique) keys within
    /// calendar-conversion range, finite sets.
    pub(crate) open spec fn wf(self) -> bool {
        &&& self.keys@.len() == self.sets@.len()
        &&& forall|i: int, j: int|
            0 <= i < j < self.keys@.len() ==> #[trigger] self.keys@[i] < #[trigger] self.keys@[j]
        &&& forall|i: int|
            0 <= i < self.sets@.len() ==> (#[trigger] ip_set(self.sets@[i])).finite()
        &&& forall|i: int|
            0 <= i < self.keys@.len() ==> -0x2_0000_0000 <= #[trigger] self.keys@[i]
                <= 0x2_0000_0000
    }

    pub(crate) open spec fn has_key(self, k: int) -> bool {
        exists|i: int| 0 <= i < self.keys@.len() && self.keys@[i] == k
    }

    pub(crate) open spec fn key_index(self, k: int) -> int {
        choose|i: int| 0 <= i < self.keys@.len() && self.keys@[i] == k
    }

    /// The bucket map this structure holds.
    pub(crate) open spec fn as_map(self) -> Map<int, Set<u32>> {
        Map::new(|k: int| self.has_key(k), |k: int| ip_set(self.sets@[self.key_index(k)]))
    }

    /// With unique keys, position `i` is the index `as_map` reads for
    /// its key.
    pub(crate) proof fn lemma_key_index(self, i: int)
        requires
            self.wf(),
            0 <= i < self.keys@.len(),
        ensures
            self.has_key(self.keys@[i] as int),
            self.key_index(self.keys@[i] as int) == i,
            self.as_map().dom().contains(self.keys@[i] as int),
            self.as_map()[self.keys@[i] as int] == ip_set(self.sets@[i]),
    {
        let k = self.keys@[i] as int;
        assert(self.has_key(k));
        let j = self.key_index(k);
        if j < i {
            assert(self.keys@[j] < self.keys@[i]);
        } else if j > i {
            assert(self.keys@[i] < self.keys@[j]);
        }
    }

    pub(crate) fn new() -> (b: Buckets)
        ensures
            b.wf(),
            b.as_map() == Map::<int, Set<u32>>::empty(),
    {
        let b = Buckets { keys: Vec::new(), sets: Vec::new() };
        proof {
            assert(b.as_map() =~= Map::<int, Set<u32>>::empty());
        }
        b
    }

    /// Fold `other` into the bucket for `k`, creating it if absent.
    pub(crate) fn merge(&mut self, k: i64, other: &IpSet)
        requires
            old(self).wf(),
            -0x2_0000_0000 <= k <= 0x2_0000_0000,
            ip_set(*other).finite(),
        ensures
            final(self).wf(),
            final(self).as_map() == bucket_add(old(self).as_map(), k as int, ip_set(*other)),
    {
        let i = lower_bound(&self.keys, k);
        let n = self.keys.len();
        let ghost om = old(self).as_map();
        if i < n && self.keys[i] == k {
            let mut s = self.sets.remove(i);
            s.extend_from(other);
            self.sets.insert(i, s);
            proof {
                assert(self.sets@ =~= old(self).sets@.update(i as int, self.sets@[i as int]));
                assert(self.keys@ == old(self).keys@);
                old(self).lemma_key_index(i as int);
                assert forall|k2: int| self.has_key(k2) implies #[trigger] self.as_map()[k2]
                    == bucket_add(om, k as int, ip_set(*other))[k2] by {
                    let j = self.key_index(k2);
                    assert(0 <= j < self.keys@.len() && self.keys@[j] == k2);
                    self.lemma_key_index(j);
                    old(self).lemma_key_index(j);
                }
                assert(self.as_map() =~~= bucket_add(om, k as int, ip_set(*other)));
            }
        } else {
            let mut s = IpSet::new();
            s.extend_from(other);
            self.keys.insert(i, k);
            self.sets.insert(i, s);
            proof {
                let ok = old(self).keys@;
                let nk = self.keys@;
                assert(nk.len() == ok.len() + 1);
                assert forall|p: int, q: int| 0 <= p < q < nk.len() implies #[trigger] nk[p]
                    < #[trigger] nk[q] by {
                    if p < i && q < i {
                        assert(nk[p] == ok[p] && nk[q] == ok[q]);
                    } else if p < i && q == i {
                        assert(nk[p] == ok[p] && nk[q] == k);
                    } else if p < i && q > i {
                        assert(nk[p] == ok[p] && nk[q] == ok[q - 1]);
                        if q - 1 > i - 1 && i <= q - 1 && i < ok.len() {
                        }
                        if i < ok.len() {
                            assert(ok[i as int] > k);
                        }
                    } else if p == i && q > i {
                        assert(nk[p] == k && nk[q] == ok[q - 1]);
                        assert(q - 1 >= i);
                        if i < ok.len() {
                            assert(ok[i as int] > k);
                            if q - 1 > i {
                                assert(ok[i as int] < ok[q - 1]);
                            }
                        }
                    } else {
                        assert(p > i && q > i);
                        assert(nk[p] == ok[p - 1] && nk[q] == ok[q - 1]);
                    }
                }
                assert(self.wf());
                assert forall|k2: int|
                    self.has_key(k2) <==> (old(self).has_key(k2) || k2 == k) by {
                    if self.has_key(k2) {
                        let j = self.key_index(k2);
                        if j < i {
                            assert(ok[j] == k2);
                        } else if j == i {
                        } else {
                            assert(ok[j - 1] == k2);
                        }
                    }
                    if old(self).has_key(k2) {
                        let j = choose|j: int| 0 <= j < ok.len() && ok[j] == k2;
                        if j < i {
                            assert(nk[j] == k2);
                        } else {
                            assert(nk[j + 1] == k2);
                        }
                        assert(self.has_key(k2));
                    }
                    if k2 == k {
                        assert(nk[i as int] == k);
                        assert(self.has_key(k2));
                    }
                }
                assert forall|k2: int| self.has_key(k2) implies #[trigger] self.as_map()[k2]
                    == bucket_add(om, k as int, ip_set(*other))[k2] by {
                    let j = self.key_index(k2);
                    assert(0 <= j < nk.len() && nk[j] == k2);
                    self.lemma_key_index(j);
                    if j == i {
                        assert(k2 == k);
                        assert(!old(self).has_key(k as int));
                        assert(ip_set(self.sets@[j]) =~= Set::empty().union(ip_set(*other)));
                        assert(bucket_add(om, k as int, ip_set(*other))[k2] =~= Set::<
                            u32,
                        >::empty().union(ip_set(*other)));
                    } else if j < i {
                        assert(self.sets@[j] == old(self).sets@[j]);
                        assert(ok[j] == k2);
                        old(self).lemma_key_index(j);
                        assert(k2 != k);
                    } else {
                        assert(self.sets@[j] == old(self).sets@[j - 1]);
                        assert(ok[j - 1] == k2);
                        old(self).lemma_key_index(j - 1);
                        assert(k2 != k);
                    }
                }
                assert(self.as_map() =~~= bucket_add(om, k as int, ip_set(*other)));
            }
        }
    }

    /// Fold one address into the bucket for `k`.
    pub(crate) fn add(&mut self, k: i64, a: u32)
        requires
            old(self).wf(),
            -0x2_0000_0000 <= k <= 0x2_0000_0000,
        ensures
            final(self).wf(),
            final(self).as_map() == bucket_add(
                old(self).as_map(),
                k as int,
                Set::empty().insert(a),
            ),
    {
        let mut s = IpSet::new();
        s.insert(a);
        self.merge(k, &s);
    }
}

/// The first position whose key is at least `k` (scanning in order), so
/// an insertion there keeps the keys sorted.
fn lower_bound(keys: &Vec<i64>, k: i64) -> (i: usize)
    ensures
        i <= keys@.len(),
        forall|j: int| 0 <= j < i ==> #[trigger] keys@[j] < k,
        i < keys@.len() ==> keys@[i as int] >= k,
{
    let n = keys.len();
    let mut i: usize = 0;
    while i < n
        invariant
            i <= n,
            n == keys@.len(),
            forall|j: int| 0 <= j < i ==> #[trigger] keys@[j] < k,
        decreases n - i,
    {
        if keys[i] >= k {
            return i;
        }
        i += 1;
    }
    i
}

} // verus!
