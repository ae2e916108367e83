//! Buckets of places: for each digest, the places of the entries that have
//! it. A collection that keeps its entries in a vector looks a key up by
//! going through the bucket of the key's digest only.

use std::collections::HashMap;
use vstd::prelude::*;

verus! {

/// A hash map from digest to the places listed under it.
pub struct Buckets {
    table: HashMap<u64, Vec<usize>>,
}

impl Buckets {
    /// Whether `place` is listed under `digest`.
    pub closed spec fn lists(&self, digest: u64, place: usize) -> bool {
        self.table@.contains_key(digest) && self.table@[digest]@.contains(place)
    }

    /// The buckets list each place of `digests` under the digest found
    /// there, and nothing else.
    pub open spec fn tracks(&self, digests: Seq<u64>) -> bool {
        forall|digest: u64, place: usize| #[trigger]
            self.lists(digest, place) <==> (place < digests.len() && digests[place as int]
                == digest)
    }

    /// Buckets that list nothing.
    pub fn new() -> (buckets: Buckets)
        ensures
            buckets.tracks(Seq::<u64>::empty()),
    {
        Buckets { table: HashMap::new() }
    }

    /// The places listed under `digest`.
    pub fn candidates(&self, digest: u64) -> (places: Option<&Vec<usize>>)
        ensures
            match places {
                Some(list) => forall|place: usize|
                    list@.contains(place) <==> #[trigger] self.lists(digest, place),
                None => forall|place: usize| !#[trigger] self.lists(digest, place),
            },
    {
        broadcast use vstd::std_specs::hash::group_hash_axioms;

        self.table.get(&digest)
    }

    /// Lists `place` under `digest`.
    pub fn add(&mut self, digest: u64, place: usize)
        ensures
            forall|d: u64, p: usize| #[trigger]
                final(self).lists(d, p) <==> (old(self).lists(d, p) || (d == digest && p
                    == place)),
    {
        broadcast use vstd::std_specs::hash::group_hash_axioms;

        let ghost before = self.table@;
        let mut bucket: Vec<usize> = match self.table.remove(&digest) {
            Some(bucket) => bucket,
            None => Vec::new(),
        };
        let ghost listed = bucket@;
        bucket.push(place);
        self.table.insert(digest, bucket);
        proof {
            assert forall|d: u64, p: usize| #[trigger]
                self.lists(d, p) <==> (old(self).lists(d, p) || (d == digest && p == place)) by {
                if d == digest {
                    assert(self.table@[d]@ == listed.push(place));
                    if listed.contains(p) {
                        let k = choose|k: int| 0 <= k < listed.len() && listed[k] == p;
                        assert(listed.push(place)[k] == p);
                    }
                    if p == place {
                        assert(listed.push(place)[listed.len() as int] == p);
                    }
                    if listed.push(place).contains(p) {
                        let k = choose|k: int|
                            0 <= k < listed.push(place).len() && listed.push(place)[k] == p;
                        if k < listed.len() {
                            assert(listed[k] == p);
                        }
                    }
                } else {
                    assert(self.table@.contains_key(d) == before.contains_key(d));
                }
            }
        }
    }
}

} // verus!
