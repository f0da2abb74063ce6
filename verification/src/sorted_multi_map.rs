//! The rank index: an ordered multimap from rank keys to arm indices.
//!
//! Entries are kept in ascending key order; entries of one key stay in the
//! order in which they were inserted. A balanced tree holds, under the order
//! code of each key, the entries of that key in a bucket.

use crate::float_key::FloatKey;
use std::collections::BTreeMap;
use vstd::prelude::*;
use vstd::std_specs::btree::increasing_seq;
use vstd::std_specs::cmp::OrdSpec;
use vstd::std_specs::iter::{IteratorSpec, VerusForLoopWrapper};

verus! {

/// Ascending by key, equal keys allowed.
pub open spec fn is_sorted(s: Seq<(FloatKey, i32)>) -> bool {
    forall|i: int, j: int| 0 <= i < j < s.len() ==> s[i].0@ <= s[j].0@
}

/// Where an entry of the given key goes: behind the last entry whose key is
/// not greater. In a sorted sequence that is behind every entry of the same key.
pub open spec fn insertion_point(s: Seq<(FloatKey, i32)>, key: FloatKey) -> int
    decreases s.len(),
{
    if s.len() == 0 {
        0
    } else if s.last().0@ <= key@ {
        s.len() as int
    } else {
        insertion_point(s.drop_last(), key)
    }
}

/// The sequence after inserting one entry.
pub open spec fn inserted(s: Seq<(FloatKey, i32)>, key: FloatKey, value: i32) -> Seq<
    (FloatKey, i32),
> {
    s.insert(insertion_point(s, key), (key, value))
}

/// The sequence after deleting one entry: without the first occurrence of the
/// pair, or unchanged where the pair does not occur.
pub open spec fn deleted(s: Seq<(FloatKey, i32)>, key: FloatKey, value: i32) -> Seq<
    (FloatKey, i32),
> {
    s.remove_value((key, value))
}

/// The sequence that a run of inserts builds from nothing.
pub open spec fn built(inserts: Seq<(FloatKey, i32)>) -> Seq<(FloatKey, i32)>
    decreases inserts.len(),
{
    if inserts.len() == 0 {
        Seq::empty()
    } else {
        inserted(built(inserts.drop_last()), inserts.last().0, inserts.last().1)
    }
}

/// The test for an entry of one key.
pub open spec fn has_key(key: FloatKey) -> spec_fn((FloatKey, i32)) -> bool {
    |e: (FloatKey, i32)| e.0 == key
}

/// The entries of one key, in the order in which the sequence holds them.
pub open spec fn entries_of(s: Seq<(FloatKey, i32)>, key: FloatKey) -> Seq<(FloatKey, i32)> {
    s.filter(has_key(key))
}

/// In a sorted sequence the insertion point parts the keys that are not
/// greater from those that are, and no other position does.
pub proof fn lemma_insertion_point(s: Seq<(FloatKey, i32)>, key: FloatKey)
    requires
        is_sorted(s),
    ensures
        0 <= insertion_point(s, key) <= s.len(),
        forall|i: int| 0 <= i < insertion_point(s, key) ==> s[i].0@ <= key@,
        forall|i: int| insertion_point(s, key) <= i < s.len() ==> s[i].0@ > key@,
    decreases s.len(),
{
    if s.len() > 0 {
        let p = insertion_point(s, key);
        if s.last().0@ > key@ {
            let t = s.drop_last();
            assert forall|i: int, j: int| 0 <= i < j < t.len() implies t[i].0@ <= t[j].0@ by {
                assert(t[i] == s[i] && t[j] == s[j]);
            }
            lemma_insertion_point(t, key);
            assert forall|i: int| 0 <= i < p implies s[i].0@ <= key@ by {
                assert(t[i] == s[i]);
            }
            assert forall|i: int| p <= i < s.len() implies s[i].0@ > key@ by {
                if i < t.len() {
                    assert(t[i] == s[i]);
                }
            }
        }
    }
}

/// A position that parts the keys as the insertion point does is the insertion point.
pub proof fn lemma_insertion_point_unique(s: Seq<(FloatKey, i32)>, key: FloatKey, p: int)
    requires
        is_sorted(s),
        0 <= p <= s.len(),
        forall|i: int| 0 <= i < p ==> s[i].0@ <= key@,
        forall|i: int| p <= i < s.len() ==> s[i].0@ > key@,
    ensures
        p == insertion_point(s, key),
{
    lemma_insertion_point(s, key);
    let q = insertion_point(s, key);
    if p < q {
        assert(s[p].0@ > key@);
    } else if q < p {
        assert(s[q].0@ <= key@);
    }
}

/// Inserting keeps the order, adds one entry, and puts it behind the entries of its key.
pub proof fn lemma_inserted(s: Seq<(FloatKey, i32)>, key: FloatKey, value: i32)
    requires
        is_sorted(s),
    ensures
        is_sorted(inserted(s, key, value)),
        inserted(s, key, value).len() == s.len() + 1,
        inserted(s, key, value).to_multiset() == s.to_multiset().insert((key, value)),
        forall|k: FloatKey|
            entries_of(inserted(s, key, value), k) == if k == key {
                entries_of(s, k).push((key, value))
            } else {
                entries_of(s, k)
            },
{
    broadcast use vstd::seq_lib::group_seq_properties;

    lemma_insertion_point(s, key);
    let p = insertion_point(s, key);
    let t = inserted(s, key, value);
    s.insert_ensures(p, (key, value));
    assert forall|k: FloatKey|
        entries_of(t, k) == if k == key {
            entries_of(s, k).push((key, value))
        } else {
            entries_of(s, k)
        } by {
        lemma_entries_of_inserted(s, key, value, k);
    }
}

proof fn lemma_entries_of_inserted(
    s: Seq<(FloatKey, i32)>,
    key: FloatKey,
    value: i32,
    k: FloatKey,
)
    requires
        is_sorted(s),
    ensures
        entries_of(inserted(s, key, value), k) == if k == key {
            entries_of(s, k).push((key, value))
        } else {
            entries_of(s, k)
        },
{
    lemma_insertion_point(s, key);
    let p = insertion_point(s, key);
    let pred = has_key(k);
    let head = s.subrange(0, p);
    let tail = s.subrange(p, s.len() as int);
    let one = seq![(key, value)];
    assert(s =~= head + tail);
    assert(inserted(s, key, value) =~= (head + one) + tail);
    Seq::<(FloatKey, i32)>::empty().lemma_filter_push((key, value), pred);
    if k == key {
        // Behind the insertion point every key is greater, so none is `key`.
        tail.lemma_all_neg_filter_empty(pred);
    }
}

/// Deleting a pair that occurs removes its first occurrence and nothing else;
/// deleting one that does not occur changes nothing. Either way the order stays.
pub proof fn lemma_deleted(s: Seq<(FloatKey, i32)>, key: FloatKey, value: i32)
    requires
        is_sorted(s),
    ensures
        is_sorted(deleted(s, key, value)),
        !s.contains((key, value)) ==> deleted(s, key, value) == s,
        s.contains((key, value)) ==> {
            &&& deleted(s, key, value).len() == s.len() - 1
            &&& deleted(s, key, value).to_multiset() == s.to_multiset().remove((key, value))
        },
{
    broadcast use vstd::seq_lib::group_seq_properties;

    s.index_of_first_ensures((key, value));
}

/// Whatever is inserted, in whatever order: the index holds the entries in
/// ascending key order, and those of one key in the order of their insertion.
pub proof fn lemma_built_sorted_and_stable(inserts: Seq<(FloatKey, i32)>)
    ensures
        is_sorted(built(inserts)),
        built(inserts).len() == inserts.len(),
        built(inserts).to_multiset() == inserts.to_multiset(),
        forall|k: FloatKey| entries_of(built(inserts), k) == entries_of(inserts, k),
    decreases inserts.len(),
{
    broadcast use vstd::seq_lib::group_seq_properties;

    if inserts.len() > 0 {
        let front = inserts.drop_last();
        let last = inserts.last();
        lemma_built_sorted_and_stable(front);
        lemma_inserted(built(front), last.0, last.1);
        assert(inserts =~= front.push(last));
        assert forall|k: FloatKey| entries_of(built(inserts), k) == entries_of(inserts, k) by {
            lemma_entries_of_inserted(built(front), last.0, last.1, k);
            front.lemma_filter_push(last, has_key(k));
            assert(entries_of(built(front), k) == entries_of(front, k));
        }
    }
}

/// The entries under one key code, in the order of their insertion; none
/// where the tree holds no such key.
spec fn bucket_at(tree: Map<i64, Vec<(FloatKey, i32)>>, code: int) -> Seq<(FloatKey, i32)> {
    if i64::MIN <= code <= i64::MAX && tree.contains_key(code as i64) {
        tree[code as i64]@
    } else {
        Seq::empty()
    }
}

/// The entries whose key codes lie from `low` up to `high`, that one
/// excluded, bucket after bucket in ascending order of the codes.
spec fn range_entries(tree: Map<i64, Vec<(FloatKey, i32)>>, low: int, high: int) -> Seq<
    (FloatKey, i32),
>
    decreases high - low,
{
    if low >= high {
        Seq::empty()
    } else {
        range_entries(tree, low, high - 1) + bucket_at(tree, high - 1)
    }
}

/// All entries of a tree, in ascending order of the key codes.
spec fn all_entries(tree: Map<i64, Vec<(FloatKey, i32)>>) -> Seq<(FloatKey, i32)> {
    range_entries(tree, i64::MIN as int, i64::MAX + 1)
}

/// No bucket is empty, and each entry has the key under which its bucket stands.
spec fn buckets_ok(tree: Map<i64, Vec<(FloatKey, i32)>>) -> bool {
    forall|code: i64| #[trigger]
        tree.contains_key(code) ==> tree[code]@.len() > 0 && forall|j: int|
            0 <= j < tree[code]@.len() ==> (#[trigger] tree[code]@[j]).0@ == code
}

/// A range is its part below a code followed by its part from the code on.
proof fn lemma_range_split(tree: Map<i64, Vec<(FloatKey, i32)>>, low: int, middle: int, high: int)
    requires
        low <= middle <= high,
    ensures
        range_entries(tree, low, high) == range_entries(tree, low, middle) + range_entries(
            tree,
            middle,
            high,
        ),
    decreases high - middle,
{
    if middle < high {
        lemma_range_split(tree, low, middle, high - 1);
    }
}

/// Two trees with the same buckets over a range have the same entries there.
proof fn lemma_range_frame(
    first: Map<i64, Vec<(FloatKey, i32)>>,
    second: Map<i64, Vec<(FloatKey, i32)>>,
    low: int,
    high: int,
)
    requires
        forall|code: int| low <= code < high ==> bucket_at(first, code) == bucket_at(second, code),
    ensures
        range_entries(first, low, high) == range_entries(second, low, high),
    decreases high - low,
{
    if low < high {
        lemma_range_frame(first, second, low, high - 1);
    }
}

/// A range without buckets has no entries.
proof fn lemma_range_empty(tree: Map<i64, Vec<(FloatKey, i32)>>, low: int, high: int)
    requires
        forall|code: int| low <= code < high ==> bucket_at(tree, code).len() == 0,
    ensures
        range_entries(tree, low, high) == Seq::<(FloatKey, i32)>::empty(),
    decreases high - low,
{
    if low < high {
        lemma_range_empty(tree, low, high - 1);
    }
}

/// The entries of a range have their key codes in the range and are sorted.
proof fn lemma_range_keys(tree: Map<i64, Vec<(FloatKey, i32)>>, low: int, high: int)
    requires
        buckets_ok(tree),
    ensures
        forall|i: int|
            0 <= i < range_entries(tree, low, high).len() ==> low <= (#[trigger] range_entries(
                tree,
                low,
                high,
            )[i]).0@ < high,
        is_sorted(range_entries(tree, low, high)),
    decreases high - low,
{
    if low < high {
        lemma_range_keys(tree, low, high - 1);
    }
}

/// The keys that the iteration of a tree yields are in ascending order.
proof fn lemma_increasing(codes: Seq<i64>)
    requires
        increasing_seq(codes),
    ensures
        forall|i: int, j: int| 0 <= i < j < codes.len() ==> codes[i] < codes[j],
{
    assert forall|i: int, j: int| 0 <= i < j < codes.len() implies codes[i] < codes[j] by {
        assert(codes[i].cmp_spec(&codes[j]) is Less);
    }
}

/// The key codes of what the iteration of a tree yields.
spec fn codes_of(yielded: Seq<(&i64, &Vec<(FloatKey, i32)>)>) -> Seq<i64> {
    yielded.map_values(|pair: (&i64, &Vec<(FloatKey, i32)>)| *pair.0)
}

/// What the iteration of a tree yields: each key with its bucket, all keys,
/// in ascending order.
spec fn yields(
    tree: Map<i64, Vec<(FloatKey, i32)>>,
    yielded: Seq<(&i64, &Vec<(FloatKey, i32)>)>,
) -> bool {
    &&& forall|i: int|
        0 <= i < yielded.len() ==> tree.contains_key(*(#[trigger] yielded[i]).0) && tree[*yielded[i].0]
            == *yielded[i].1
    &&& forall|i: int, j: int| 0 <= i < j < yielded.len() ==> *yielded[i].0 < *yielded[j].0
    &&& forall|code: i64| #[trigger]
        tree.contains_key(code) ==> exists|i: int|
            0 <= i < yielded.len() && *(#[trigger] yielded[i]).0 == code
}

/// The code from which the buckets are still to come when `done` of the
/// yielded pairs were gone through.
spec fn bound_after(yielded: Seq<(&i64, &Vec<(FloatKey, i32)>)>, done: int) -> int {
    if done == 0 {
        i64::MIN as int
    } else {
        *yielded[done - 1].0 + 1
    }
}

/// Between the pairs gone through and the next one the tree holds no key;
/// behind the last it holds none at all.
proof fn lemma_gap(
    tree: Map<i64, Vec<(FloatKey, i32)>>,
    yielded: Seq<(&i64, &Vec<(FloatKey, i32)>)>,
    done: int,
)
    requires
        yields(tree, yielded),
        0 <= done <= yielded.len(),
    ensures
        done < yielded.len() ==> range_entries(tree, i64::MIN as int, *yielded[done].0 as int)
            == range_entries(tree, i64::MIN as int, bound_after(yielded, done)),
        done == yielded.len() ==> all_entries(tree) == range_entries(
            tree,
            i64::MIN as int,
            bound_after(yielded, done),
        ),
{
    let low = bound_after(yielded, done);
    let high: int = if done < yielded.len() {
        *yielded[done].0 as int
    } else {
        i64::MAX + 1
    };
    lemma_range_empty(tree, low, high);
    lemma_range_split(tree, i64::MIN as int, low, high);
}

/// An ordered multimap from rank keys to arm indices.
pub struct SortedMultiMap {
    tree: BTreeMap<i64, Vec<(FloatKey, i32)>>,
    count: usize,
}

impl View for SortedMultiMap {
    type V = Seq<(FloatKey, i32)>;

    /// The entries in the order of iteration.
    closed spec fn view(&self) -> Seq<(FloatKey, i32)> {
        all_entries(self.tree@)
    }
}

impl SortedMultiMap {
    /// No bucket of the tree is empty, each stands under the key of its
    /// entries, and the entries are counted.
    pub closed spec fn wf(&self) -> bool {
        &&& buckets_ok(self.tree@)
        &&& self.count == self@.len()
    }

    /// The entries of a well-formed index are in ascending key order.
    pub proof fn lemma_sorted(&self)
        requires
            self.wf(),
        ensures
            is_sorted(self@),
    {
        lemma_range_keys(self.tree@, i64::MIN as int, i64::MAX + 1);
    }

    /// An index without entries.
    pub fn new() -> (r: SortedMultiMap)
        ensures
            r.wf(),
            r@ == Seq::<(FloatKey, i32)>::empty(),
    {
        let r = SortedMultiMap { tree: BTreeMap::new(), count: 0 };
        proof {
            lemma_range_empty(r.tree@, i64::MIN as int, i64::MAX + 1);
        }
        r
    }

    /// The number of entries.
    pub fn len(&self) -> (n: usize)
        requires
            self.wf(),
        ensures
            n == self@.len(),
    {
        self.count
    }

    /// Adds an entry. It comes behind every entry whose key is not greater, so
    /// behind the entries of its own key that are there already.
    pub fn insert(&mut self, key: FloatKey, value: i32)
        requires
            old(self).wf(),
            old(self)@.len() < usize::MAX,
        ensures
            final(self).wf(),
            final(self)@ == inserted(old(self)@, key, value),
            is_sorted(final(self)@),
    {
        let code: i64 = key.code();
        let ghost before = self.tree@;
        let mut bucket: Vec<(FloatKey, i32)> = match self.tree.remove(&code) {
            Some(bucket) => bucket,
            None => Vec::new(),
        };
        let ghost old_bucket = bucket@;
        bucket.push((key, value));
        self.tree.insert(code, bucket);
        self.count = self.count + 1;
        proof {
            let after = self.tree@;
            let low = i64::MIN as int;
            let high = i64::MAX + 1;
            lemma_range_split(before, low, code as int, high);
            lemma_range_split(before, code as int, code + 1, high);
            lemma_range_split(after, low, code as int, high);
            lemma_range_split(after, code as int, code + 1, high);
            lemma_range_frame(before, after, low, code as int);
            lemma_range_frame(before, after, code + 1, high);
            let head = range_entries(before, low, code as int);
            assert(range_entries(before, code as int, code + 1) =~= old_bucket) by {
                assert(range_entries(before, code as int, code as int) =~= Seq::<
                    (FloatKey, i32),
                >::empty());
            }
            assert(range_entries(after, code as int, code + 1) =~= bucket@) by {
                assert(range_entries(after, code as int, code as int) =~= Seq::<
                    (FloatKey, i32),
                >::empty());
            }
            let all = all_entries(before);
            lemma_range_keys(before, low, code as int);
            lemma_range_keys(before, code + 1, high);
            let p = head.len() + old_bucket.len();
            lemma_insertion_point_unique(all, key, p as int);
            lemma_inserted(all, key, value);
        }
    }

    /// Removes the first entry that has this key and this value, and says
    /// whether there was one. The other entries keep their order.
    pub fn delete(&mut self, key: &FloatKey, value: &i32) -> (found: bool)
        requires
            old(self).wf(),
        ensures
            final(self).wf(),
            found == old(self)@.contains((*key, *value)),
            final(self)@ == deleted(old(self)@, *key, *value),
            is_sorted(final(self)@),
    {
        let code: i64 = key.code();
        let ghost before = self.tree@;
        let ghost all = all_entries(before);
        let ghost low = i64::MIN as int;
        let ghost high = i64::MAX + 1;
        let ghost head = range_entries(before, low, code as int);
        let ghost old_bucket = bucket_at(before, code as int);
        proof {
            lemma_range_split(before, low, code as int, high);
            lemma_range_split(before, code as int, code + 1, high);
            assert(range_entries(before, code as int, code + 1) =~= old_bucket) by {
                assert(range_entries(before, code as int, code as int) =~= Seq::<
                    (FloatKey, i32),
                >::empty());
            }
            lemma_range_keys(before, low, code as int);
            lemma_range_keys(before, code + 1, high);
            all.index_of_first_ensures((*key, *value));
            lemma_deleted(all, *key, *value);
        }
        let mut bucket: Vec<(FloatKey, i32)> = match self.tree.remove(&code) {
            Some(bucket) => bucket,
            None => {
                proof {
                    assert(self.tree@ =~= before);
                }
                return false;
            },
        };
        let mut position: usize = 0;
        while position < bucket.len() && bucket[position].1 != *value
            invariant
                position <= bucket@.len(),
                forall|j: int| 0 <= j < position ==> (#[trigger] bucket@[j]).1 != *value,
            decreases bucket@.len() - position,
        {
            position = position + 1;
        }
        if position == bucket.len() {
            self.tree.insert(code, bucket);
            proof {
                assert(self.tree@ =~= before);
                assert(forall|i: int| 0 <= i < all.len() ==> all[i] != (*key, *value));
            }
            return false;
        }
        proof {
            FloatKey::lemma_view_injective(bucket@[position as int].0, *key);
            let at = head.len() + position;
            assert(all[at] == (*key, *value));
        }
        bucket.remove(position);
        let ghost new_bucket = bucket@;
        if bucket.len() > 0 {
            self.tree.insert(code, bucket);
        }
        self.count = self.count - 1;
        proof {
            let after = self.tree@;
            lemma_range_split(after, low, code as int, high);
            lemma_range_split(after, code as int, code + 1, high);
            lemma_range_frame(before, after, low, code as int);
            lemma_range_frame(before, after, code + 1, high);
            assert(range_entries(after, code as int, code + 1) =~= new_bucket) by {
                assert(range_entries(after, code as int, code as int) =~= Seq::<
                    (FloatKey, i32),
                >::empty());
            }
            assert(all_entries(after) =~= all.remove(head.len() + position));
        }
        true
    }

    /// The entries in ascending key order, those of one key in the order of
    /// their insertion.
    pub fn iter(&self) -> (r: Vec<(FloatKey, i32)>)
        requires
            self.wf(),
        ensures
            r@ == self@,
            is_sorted(r@),
    {
        self.first(self.count)
    }

    /// The first `count` entries in the order of iteration, or all of them
    /// where there are fewer.
    pub fn first(&self, count: usize) -> (r: Vec<(FloatKey, i32)>)
        requires
            self.wf(),
        ensures
            r@ == self@.take(if count <= self@.len() { count as int } else { self@.len() as int }),
            is_sorted(r@),
    {
        let mut r: Vec<(FloatKey, i32)> = Vec::new();
        let iter = self.tree.iter();
        let ghost tree = self.tree@;
        let ghost all = all_entries(tree);
        let ghost yielded = iter.remaining();
        proof {
            lemma_increasing(codes_of(yielded));
            assert forall|i: int, j: int| 0 <= i < j < yielded.len() implies *yielded[i].0
                < *yielded[j].0 by {
                assert(codes_of(yielded)[i] < codes_of(yielded)[j]);
            }
            lemma_range_keys(tree, i64::MIN as int, i64::MAX + 1);
        }
        let mut walk = VerusForLoopWrapper::new(iter, Ghost(None));
        while r.len() < count
            invariant
                tree == self.tree@,
                all == all_entries(tree),
                buckets_ok(tree),
                yields(tree, yielded),
                walk.wf(),
                walk.seq() == yielded,
                r@.len() <= count,
                r@.len() <= all.len(),
                r@ == all.take(r@.len() as int),
                r@.len() < count ==> r@ == range_entries(
                    tree,
                    i64::MIN as int,
                    bound_after(yielded, walk.index()),
                ),
            ensures
                r@ == all.take(if count <= all.len() { count as int } else { all.len() as int }),
            decreases count - r@.len(),
        {
            let ghost done: int = walk.index();
            proof {
                lemma_gap(tree, yielded, done);
            }
            match walk.next() {
                None => {
                    break ;
                },
                Some(pair) => {
                    let bucket: &Vec<(FloatKey, i32)> = pair.1;
                    let ghost code: int = *pair.0 as int;
                    let ghost head = r@;
                    proof {
                        lemma_range_split(tree, i64::MIN as int, code + 1, i64::MAX + 1);
                    }
                    let mut j: usize = 0;
                    while j < bucket.len() && r.len() < count
                        invariant
                            j <= bucket@.len(),
                            r@ == head + bucket@.take(j as int),
                            r@.len() <= count,
                        decreases bucket@.len() - j,
                    {
                        r.push(bucket[j]);
                        j = j + 1;
                    }
                },
            }
        }
        r
    }
}

} // verus!
