//! The deduplication index: from an action vector to the index of its arm.
//!
//! A hash map keyed by a hash of the vector holds, for each hash, the few
//! vectors that share it. What the table holds, to contracts, is a map from
//! vectors to indices.

use crate::arm::same_vector;
use std::collections::HashMap;
use vstd::prelude::*;

verus! {

/// One coordinate as an unsigned number, for hashing.
pub open spec fn coordinate_bits(x: i32) -> u64 {
    (x as int + 0x8000_0000) as u64
}

/// The hash of a vector: each coordinate in turn is mixed into the hash of
/// those before it.
pub open spec fn spec_hash(v: Seq<i32>) -> u64
    decreases v.len(),
{
    if v.len() == 0 {
        0xcbf2_9ce4_8422_2325
    } else {
        (spec_hash(v.drop_last()) ^ coordinate_bits(v.last())).wrapping_mul(0x100_0000_01b3)
    }
}

/// The hash of a vector.
pub fn hash_vector(v: &[i32]) -> (h: u64)
    ensures
        h == spec_hash(v@),
{
    let mut h: u64 = 0xcbf2_9ce4_8422_2325;
    let mut i: usize = 0;
    while i < v.len()
        invariant
            i <= v@.len(),
            h == spec_hash(v@.take(i as int)),
        decreases v@.len() - i,
    {
        let x: i32 = v[i];
        let bits: u64 = (x as i64 + 0x8000_0000i64) as u64;
        proof {
            assert(v@.take(i + 1).drop_last() =~= v@.take(i as int));
        }
        h = (h ^ bits).wrapping_mul(0x100_0000_01b3);
        i = i + 1;
    }
    proof {
        assert(v@.take(v@.len() as int) =~= v@);
    }
    h
}

/// Each entry of a bucket has the bucket's hash and is what the table maps its
/// vector to, and no vector is in the bucket twice.
spec fn bucket_ok(bucket: Seq<(Vec<i32>, i32)>, hash: u64, contents: Map<Seq<i32>, i32>) -> bool {
    &&& forall|j: int|
        0 <= j < bucket.len() ==> {
            let e = #[trigger] bucket[j];
            &&& spec_hash(e.0@) == hash
            &&& contents.contains_key(e.0@)
            &&& contents[e.0@] == e.1
        }
    &&& forall|j: int, k: int| 0 <= j < k < bucket.len() ==> bucket[j].0@ != bucket[k].0@
}

/// The vector is in the bucket.
spec fn holds(bucket: Seq<(Vec<i32>, i32)>, v: Seq<i32>) -> bool {
    exists|j: int| 0 <= j < bucket.len() && (#[trigger] bucket[j]).0@ == v
}

/// The position of a vector in a bucket, if it is there.
fn position(bucket: &Vec<(Vec<i32>, i32)>, v: &[i32]) -> (r: Option<usize>)
    ensures
        match r {
            Some(j) => j < bucket@.len() && bucket@[j as int].0@ == v@,
            None => !holds(bucket@, v@),
        },
{
    let mut j: usize = 0;
    while j < bucket.len()
        invariant
            j <= bucket@.len(),
            forall|k: int| 0 <= k < j ==> (#[trigger] bucket@[k]).0@ != v@,
        decreases bucket@.len() - j,
    {
        if same_vector(bucket[j].0.as_slice(), v) {
            return Some(j);
        }
        j = j + 1;
    }
    None
}

/// A map from action vectors to arm indices, one entry for each vector.
pub struct LookupTable {
    buckets: HashMap<u64, Vec<(Vec<i32>, i32)>>,
    count: usize,
    contents: Ghost<Map<Seq<i32>, i32>>,
}

impl View for LookupTable {
    type V = Map<Seq<i32>, i32>;

    closed spec fn view(&self) -> Map<Seq<i32>, i32> {
        self.contents@
    }
}

impl LookupTable {
    /// The buckets hold what the table maps, each vector once and under its hash.
    pub closed spec fn wf(&self) -> bool {
        &&& self.contents@.dom().finite()
        &&& self.count == self.contents@.dom().len()
        &&& forall|h: u64| #[trigger]
            self.buckets@.contains_key(h) ==> bucket_ok(self.buckets@[h]@, h, self.contents@)
        &&& forall|v: Seq<i32>| #[trigger]
            self.contents@.contains_key(v) ==> self.buckets@.contains_key(spec_hash(v)) && holds(
                self.buckets@[spec_hash(v)]@,
                v,
            )
    }

    /// A table without entries.
    pub fn new() -> (r: LookupTable)
        ensures
            r.wf(),
            r@ == Map::<Seq<i32>, i32>::empty(),
    {
        LookupTable { buckets: HashMap::new(), count: 0, contents: Ghost(Map::empty()) }
    }

    /// The number of vectors in the table.
    pub fn len(&self) -> (n: usize)
        requires
            self.wf(),
        ensures
            self@.dom().finite(),
            n == self@.dom().len(),
    {
        self.count
    }

    /// The index that the table holds for a vector, if it holds one.
    pub fn get(&self, action_vector: &[i32]) -> (r: Option<i32>)
        requires
            self.wf(),
        ensures
            r is Some <==> self@.contains_key(action_vector@),
            r matches Some(index) ==> index == self@[action_vector@],
    {
        let hash: u64 = hash_vector(action_vector);
        match self.buckets.get(&hash) {
            None => None,
            Some(bucket) => {
                match position(bucket, action_vector) {
                    None => None,
                    Some(j) => Some(bucket[j].1),
                }
            },
        }
    }

    /// Maps a vector to an index, in place of the index it was mapped to, if any.
    pub fn insert(&mut self, action_vector: Vec<i32>, index: i32)
        requires
            old(self).wf(),
            old(self)@.dom().len() < usize::MAX,
        ensures
            final(self).wf(),
            final(self)@ == old(self)@.insert(action_vector@, index),
    {
        let hash: u64 = hash_vector(action_vector.as_slice());
        let ghost v: Seq<i32> = action_vector@;
        let ghost contents = self.contents@;
        let ghost after = contents.insert(v, index);
        let mut bucket: Vec<(Vec<i32>, i32)> = match self.buckets.remove(&hash) {
            Some(bucket) => bucket,
            None => Vec::new(),
        };
        let ghost old_bucket = bucket@;
        match position(&bucket, action_vector.as_slice()) {
            Some(j) => {
                bucket.set(j, (action_vector, index));
                proof {
                    assert forall|w: Seq<i32>| holds(old_bucket, w) implies holds(bucket@, w) by {
                        let k = choose|k: int|
                            0 <= k < old_bucket.len() && (#[trigger] old_bucket[k]).0@ == w;
                        assert(bucket@[k].0@ == w);
                    }
                }
            },
            None => {
                bucket.push((action_vector, index));
                self.count = self.count + 1;
                proof {
                    assert forall|w: Seq<i32>| holds(old_bucket, w) implies holds(bucket@, w) by {
                        let k = choose|k: int|
                            0 <= k < old_bucket.len() && (#[trigger] old_bucket[k]).0@ == w;
                        assert(bucket@[k].0@ == w);
                    }
                    assert(bucket@[old_bucket.len() as int].0@ == v);
                }
            },
        }
        self.buckets.insert(hash, bucket);
        self.contents = Ghost(after);
    }
}

} // verus!
