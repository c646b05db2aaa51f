//! The feature registry: the resolved paths already required.
//!
//! It only grows: a path once recorded stays recorded.

use vstd::prelude::*;

use crate::memory::bytes_equal;

verus! {

/// The set of resolved paths whose `require` ran without error.
pub struct FeatureRegistry {
    keys: Vec<Vec<u8>>,
}

impl View for FeatureRegistry {
    type V = Set<Seq<u8>>;

    closed spec fn view(&self) -> Set<Seq<u8>> {
        Set::new(|k: Seq<u8>| exists|i: int| 0 <= i < self.keys@.len() && self.keys@[i]@ == k)
    }
}

impl FeatureRegistry {
    /// An empty registry.
    pub fn new() -> (r: FeatureRegistry)
        ensures
            r@ == Set::<Seq<u8>>::empty(),
    {
        let r = FeatureRegistry { keys: Vec::new() };
        assert(r@ =~= Set::<Seq<u8>>::empty());
        r
    }

    /// Whether `key` was recorded.
    pub fn contains(&self, key: &[u8]) -> (r: bool)
        ensures
            r == self@.contains(key@),
    {
        let mut i: usize = 0;
        while i < self.keys.len()
            invariant
                i <= self.keys@.len(),
                forall|j: int| 0 <= j < i ==> self.keys@[j]@ != key@,
            decreases self.keys@.len() - i,
        {
            if bytes_equal(self.keys[i].as_slice(), key) {
                assert(0 <= i < self.keys@.len() && self.keys@[i as int]@ == key@);
                return true;
            }
            i += 1;
        }
        false
    }

    /// Records `key`.
    pub fn insert(&mut self, key: Vec<u8>)
        ensures
            final(self)@ == old(self)@.insert(key@),
    {
        if !self.contains(key.as_slice()) {
            let ghost before = self.keys@;
            let ghost k = key@;
            self.keys.push(key);
            proof {
                assert forall|f: Seq<u8>| #[trigger]
                    self@.contains(f) == old(self)@.insert(k).contains(f) by {
                    if old(self)@.contains(f) {
                        let j = choose|j: int| 0 <= j < before.len() && before[j]@ == f;
                        assert(self.keys@[j] == before[j]);
                    }
                    if self@.contains(f) && f != k {
                        let j = choose|j: int| 0 <= j < self.keys@.len() && self.keys@[j]@ == f;
                        assert(j < before.len());
                        assert(self.keys@[j] == before[j]);
                    }
                    if f == k {
                        assert(self.keys@[before.len() as int]@ == f);
                    }
                }
                assert(self@ =~= old(self)@.insert(k));
            }
        } else {
            assert(self@ =~= old(self)@.insert(key@));
        }
    }
}

} // verus!
