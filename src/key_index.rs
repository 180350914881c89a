use vstd::prelude::*;
use std::collections::HashMap;
use std::collections::hash_map::DefaultHasher;
use std::hash::Hasher;
use vstd::std_specs::hash::DefaultHasherAdditionalSpecFns;

verus! {

broadcast use vstd::std_specs::hash::group_hash_axioms;

/// The bucket of a byte key: std's default hash of its bytes.
pub open spec fn key_hash(s: Seq<u8>) -> u64 {
    DefaultHasher::spec_finish(seq![s])
}

pub fn hash_key(k: &Vec<u8>) -> (r: u64)
    ensures
        r == key_hash(k@),
{
    let mut hasher = DefaultHasher::new();
    hasher.write(k.as_slice());
    hasher.finish()
}

/// The positions of a sequence of byte keys, bucketed by their hash.
pub struct KeyIndex {
    buckets: HashMap<u64, Vec<usize>>,
}

impl KeyIndex {
    /// Whether the index holds every position of `keys` in the bucket of its
    /// key, and nothing else.
    pub closed spec fn indexes(&self, keys: Seq<Seq<u8>>) -> bool {
        &&& forall|g: int|
            0 <= g < keys.len() ==> #[trigger] self.buckets@.contains_key(key_hash(keys[g]))
                && self.buckets@[key_hash(keys[g])]@.contains(g as usize)
        &&& forall|h: u64, i: int|
            self.buckets@.contains_key(h) && 0 <= i < self.buckets@[h]@.len() ==> #[trigger] self.buckets@[h]@[i]
                < keys.len()
    }

    /// The positions whose key shares the bucket of `key`: among them every
    /// position of `key` itself.
    pub closed spec fn bucket(&self, key: Seq<u8>) -> Seq<usize> {
        if self.buckets@.contains_key(key_hash(key)) {
            self.buckets@[key_hash(key)]@
        } else {
            Seq::empty()
        }
    }

    pub proof fn lemma_bucket(&self, keys: Seq<Seq<u8>>, key: Seq<u8>)
        requires
            self.indexes(keys),
        ensures
            forall|g: int| 0 <= g < keys.len() && keys[g] == key ==> self.bucket(key).contains(g as usize),
            forall|i: int| 0 <= i < self.bucket(key).len() ==> #[trigger] self.bucket(key)[i] < keys.len(),
    {
        assert forall|g: int| 0 <= g < keys.len() && keys[g] == key implies self.bucket(key).contains(g as usize) by {
            assert(self.buckets@.contains_key(key_hash(keys[g])));
        }
    }

    pub fn new() -> (r: KeyIndex)
        ensures
            r.indexes(Seq::empty()),
    {
        KeyIndex { buckets: HashMap::new() }
    }

    /// The positions in the bucket of `key`.
    pub fn candidates(&self, key: &Vec<u8>) -> (r: &[usize])
        ensures
            r@ == self.bucket(key@),
    {
        let h = hash_key(key);
        match self.buckets.get(&h) {
            Some(v) => v.as_slice(),
            None => &[],
        }
    }

    /// Records `key` at the next position.
    pub fn add(&mut self, keys: Ghost<Seq<Seq<u8>>>, key: &Vec<u8>, pos: usize)
        requires
            old(self).indexes(keys@),
            pos == keys@.len(),
        ensures
            final(self).indexes(keys@.push(key@)),
    {
        let h = hash_key(key);
        let ghost old_map = self.buckets@;
        let mut v = match self.buckets.remove(&h) {
            Some(v) => v,
            None => Vec::new(),
        };
        let ghost old_v = v@;
        v.push(pos);
        self.buckets.insert(h, v);
        proof {
            let nk = keys@.push(key@);
            assert forall|g: int| 0 <= g < nk.len() implies #[trigger] self.buckets@.contains_key(key_hash(nk[g]))
                && self.buckets@[key_hash(nk[g])]@.contains(g as usize) by {
                if g < keys@.len() {
                    assert(nk[g] == keys@[g]);
                    assert(old_map.contains_key(key_hash(keys@[g])));
                    if key_hash(nk[g]) == h {
                        let w = choose|w: int| 0 <= w < old_v.len() && old_v[w] == g as usize;
                        assert(self.buckets@[h]@[w] == g as usize);
                    }
                } else {
                    assert(self.buckets@[h]@[old_v.len() as int] == pos);
                }
            }
            assert forall|hh: u64, i: int|
                self.buckets@.contains_key(hh) && 0 <= i < self.buckets@[hh]@.len() implies #[trigger] self.buckets@[hh]@[i]
                    < nk.len() by {
                if hh != h {
                    assert(old_map.contains_key(hh));
                    assert(old_map[hh]@[i] < keys@.len());
                } else if i < old_v.len() {
                    assert(old_map.contains_key(h));
                    assert(old_map[h]@[i] < keys@.len());
                }
            }
        }
    }
}

} // verus!
