//! A hasher that uses the value it is given as the hash, and the map and set
//! that are built on it. They are for keys that are hashes already, which
//! there is no point in hashing again.

use crate::groups::Groups;
use vstd::prelude::*;

verus! {

/// Hasher which simply returns the passed-in value. To be used exclusively
/// with `u64` values.
pub struct IdentityHasher {
    hash: u64,
}

impl IdentityHasher {
    /// The value that was written last, or 0 if none was.
    pub closed spec fn value(&self) -> u64 {
        self.hash
    }

    /// The hash: the value that was written last.
    #[inline]
    pub fn finish(&self) -> (hash: u64)
        ensures
            hash == self.value(),
    {
        self.hash
    }

    /// Takes `i` as the hash.
    #[inline]
    pub fn write_u64(&mut self, i: u64)
        ensures
            final(self).value() == i,
    {
        self.hash = i;
    }
}

impl Default for IdentityHasher {
    fn default() -> (hasher: IdentityHasher)
        ensures
            hasher.value() == 0,
    {
        IdentityHasher { hash: 0 }
    }
}

/// The hash of a key that is a hash already: the key itself.
pub fn identity_hash(key: u64) -> (hash: u64)
    ensures
        hash == key,
{
    let mut hasher = IdentityHasher::default();
    hasher.write_u64(key);
    hasher.finish()
}

/// Values grouped under hashes that are not hashed again.
pub type IdentityHashMap<V> = Groups<u64, V>;

/// A set of hashes that are not hashed again.
pub type IdentityHashSet = Groups<u64, ()>;

} // verus!
