//! Revocation registry: the process-wide set of access-token hashes that
//! must no longer be honored.
//!
//! Populated at logout, consulted on every authorization check, never
//! persisted, reset on process restart. The surrounding application wraps
//! one registry in a reader/writer lock and shares it across handlers.

use vstd::prelude::*;

verus! {

pub struct RevocationRegistry {
    entries: Vec<u64>,
}

impl View for RevocationRegistry {
    type V = Set<u64>;

    closed spec fn view(&self) -> Set<u64> {
        self.entries@.to_set()
    }
}

impl RevocationRegistry {
    /// A fresh registry, revoking nothing.
    pub fn new() -> (r: Self)
        ensures
            r@ == Set::<u64>::empty(),
    {
        let r = RevocationRegistry { entries: Vec::new() };
        proof {
            assert(r@ =~= Set::<u64>::empty());
        }
        r
    }

    /// Membership test for a token hash; the hot authorization path.
    pub fn contains(&self, hash: u64) -> (r: bool)
        ensures
            r == self@.contains(hash),
    {
        let mut i: usize = 0;
        while i < self.entries.len()
            invariant
                i <= self.entries@.len(),
                forall|k: int| 0 <= k < i ==> self.entries@[k] != hash,
            decreases self.entries@.len() - i,
        {
            if self.entries[i] == hash {
                proof {
                    assert(self.entries@.contains(hash));
                }
                return true;
            }
            i += 1;
        }
        proof {
            assert(!self.entries@.contains(hash));
        }
        false
    }

    /// Inserts a token hash; inserting an already revoked hash is a no-op.
    pub fn add(&mut self, hash: u64)
        ensures
            final(self)@ == old(self)@.insert(hash),
    {
        if !self.contains(hash) {
            self.entries.push(hash);
            proof {
                assert forall|x: u64| final(self)@.contains(x) <==> old(self)@.insert(hash).contains(x) by {
                    if self.entries@.contains(x) {
                        let k = choose|k: int| 0 <= k < self.entries@.len() && self.entries@[k] == x;
                        if k < self.entries@.len() - 1 {
                            assert(old(self).entries@[k] == x);
                            assert(old(self).entries@.contains(x));
                        }
                    }
                    if old(self).entries@.contains(x) {
                        let k = choose|k: int| 0 <= k < old(self).entries@.len() && old(self).entries@[k] == x;
                        assert(self.entries@[k] == x);
                        assert(self.entries@.contains(x));
                    }
                    if x == hash {
                        assert(self.entries@.last() == hash);
                        assert(self.entries@.contains(x));
                    }
                }
                assert(final(self)@ =~= old(self)@.insert(hash));
            }
        } else {
            proof {
                assert(final(self)@ =~= old(self)@.insert(hash));
            }
        }
    }
}

} // verus!
