//! A deduplicating set of IPv4 addresses, backed by fnv's hash set (the
//! hashing strategy the binary-log aggregation passes were designed
//! around). Verified code sees it only through `ip_set`, its abstract
//! contents.

use vstd::prelude::*;

verus! {

/// A set of IPv4 addresses, each held as its 32-bit big-endian value.
#[verifier::external_body]
pub struct IpSet {
    inner: fnv::FnvHashSet<u32>,
}

/// The mathematical set of addresses an `IpSet` holds.
pub uninterp spec fn ip_set(s: IpSet) -> Set<u32>;

impl IpSet {
    /// Relies on `fnv::FnvHashSet::default` (std's `HashSet` with the
    /// FNV hasher): a fresh set is empty.
    #[verifier::external_body]
    pub fn new() -> (s: IpSet)
        ensures
            ip_set(s) == Set::<u32>::empty(),
    {
        IpSet { inner: fnv::FnvHashSet::default() }
    }

    /// Relies on std's `HashSet::insert`: afterwards the set holds `a`
    /// and everything it held before, and nothing else.
    #[verifier::external_body]
    pub fn insert(&mut self, a: u32)
        ensures
            ip_set(*final(self)) == ip_set(*old(self)).insert(a),
    {
        self.inner.insert(a);
    }

    /// Relies on std's `HashSet::extend` over an iterator of the other
    /// set's elements: afterwards the set holds the union of the two.
    #[verifier::external_body]
    pub fn extend_from(&mut self, other: &IpSet)
        ensures
            ip_set(*final(self)) == ip_set(*old(self)).union(ip_set(*other)),
    {
        self.inner.extend(other.inner.iter().copied());
    }

    /// Relies on std's `HashSet::len`: the number of distinct elements.
    #[verifier::external_body]
    pub fn len(&self) -> (n: usize)
        requires
            ip_set(*self).finite(),
        ensures
            n == ip_set(*self).len(),
    {
        self.inner.len()
    }
}

} // verus!
