//! The fixed-bucket hash table itself.

use vstd::prelude::*;
use crate::key::TableKey;

verus! {

/// The number of buckets of every table; fixed for a table's whole lifetime.
pub const NBUCKETS: usize = 16;

/// The bucket index that a key with abstract value `v` is routed to.
pub open spec fn bucket_index_of<K: TableKey>(v: K::V) -> int {
    (K::hash_of(v) % (NBUCKETS as u64)) as int
}

/// A table with a fixed number of buckets; each bucket is a growable
/// sequence of (key, value) entries, scanned linearly.
pub struct HashMap<K, V> {
    buckets: Vec<Vec<(K, V)>>,
}

/// Whether some entry of `bucket` has a key with abstract value `v`.
pub open spec fn bucket_has_key<K: TableKey, V>(bucket: Seq<(K, V)>, v: K::V) -> bool {
    exists|i: int| 0 <= i < bucket.len() && (#[trigger] bucket[i].0@) == v
}

/// The value of the entry of `bucket` whose key has abstract value `v`.
pub open spec fn bucket_value<K: TableKey, V>(bucket: Seq<(K, V)>, v: K::V) -> V {
    bucket[choose|i: int| 0 <= i < bucket.len() && (#[trigger] bucket[i].0@) == v].1
}

/// Every entry of `bucket` is routed to bucket index `b`.
pub open spec fn bucket_entries_routed<K: TableKey, V>(bucket: Seq<(K, V)>, b: int) -> bool {
    forall|i: int| 0 <= i < bucket.len() ==> bucket_index_of::<K>(#[trigger] bucket[i].0@) == b
}

/// No two entries of `bucket` have keys with equal abstract values.
pub open spec fn bucket_keys_distinct<K: TableKey, V>(bucket: Seq<(K, V)>) -> bool {
    forall|i: int, j: int|
        0 <= i < bucket.len() && 0 <= j < bucket.len() && i != j
            ==> (#[trigger] bucket[i].0@) != (#[trigger] bucket[j].0@)
}

impl<K: TableKey, V> View for HashMap<K, V> {
    type V = Map<<K as View>::V, V>;

    closed spec fn view(&self) -> Map<<K as View>::V, V> {
        Map::new(
            |v: <K as View>::V| bucket_has_key(self.buckets@[bucket_index_of::<K>(v)]@, v),
            |v: <K as View>::V| bucket_value(self.buckets@[bucket_index_of::<K>(v)]@, v),
        )
    }
}

impl<K: TableKey, V> HashMap<K, V> {
    /// The table is well formed: it has exactly `NBUCKETS` buckets, every
    /// entry sits in the bucket its key is routed to, and no bucket holds
    /// two entries under keys with equal abstract values.
    pub closed spec fn wf(self) -> bool {
        &&& self.buckets@.len() == NBUCKETS
        &&& forall|b: int|
            0 <= b < self.buckets@.len() ==> bucket_entries_routed::<K, V>(
                (#[trigger] self.buckets@[b])@,
                b,
            )
        &&& forall|b: int|
            0 <= b < self.buckets@.len() ==> bucket_keys_distinct::<K, V>(
                (#[trigger] self.buckets@[b])@,
            )
    }

    /// Creates an empty table with `NBUCKETS` empty buckets.
    pub fn mk() -> (table: Self)
        ensures
            table.wf(),
            table@ == Map::<<K as View>::V, V>::empty(),
    {
        let mut buckets: Vec<Vec<(K, V)>> = Vec::with_capacity(NBUCKETS);
        for n in 0..NBUCKETS
            invariant
                buckets@.len() == n,
                forall|b: int| 0 <= b < n ==> (#[trigger] buckets@[b])@.len() == 0,
        {
            buckets.push(Vec::new());
        }
        let table = Self { buckets };
        proof {
            assert(table@ =~= Map::<<K as View>::V, V>::empty());
        }
        table
    }

    /// Calculates the bucket index for a given key; a pure function of the
    /// key's abstract value, so the same key always maps to the same bucket.
    fn key2index(&self, key: &K) -> (index: u64)
        ensures
            index == K::hash_of(key@) % (NBUCKETS as u64),
            index < NBUCKETS as u64,
    {
        let hash = key.hash_code();
        let index = hash % (NBUCKETS as u64);
        index
    }

    /// Returns the target bucket for a given key - immutable.
    fn key2bucket(&self, key: &K) -> (bucket: &Vec<(K, V)>)
        requires
            self.buckets@.len() == NBUCKETS,
        ensures
            *bucket == self.buckets@[bucket_index_of::<K>(key@)],
    {
        let index = self.key2index(key);
        let bucket = &self.buckets[index as usize];
        bucket
    }

    /// Acquires the target bucket for a given key - mutable.
    fn key2bucket_mut(&mut self, key: &K) -> (bucket: &mut Vec<(K, V)>)
        requires
            old(self).buckets@.len() == NBUCKETS,
        ensures
            *bucket == old(self).buckets@[bucket_index_of::<K>(key@)],
            final(self).buckets@ == old(self).buckets@.update(
                bucket_index_of::<K>(key@),
                *final(bucket),
            ),
    {
        let index = self.key2index(key);
        let bucket = &mut self.buckets[index as usize];
        bucket
    }

    /// Inserts a value into the table under the given key; never fails.
    ///
    /// When an entry under an equal key is already present, its value is
    /// overwritten in place and no duplicate is appended; otherwise a new
    /// entry is appended to the key's bucket. Returns the key to confirm
    /// the operation, on overwrite and fresh insert alike.
    pub fn insert(&mut self, key: K, val: V) -> (result: Option<K>)
        requires
            old(self).wf(),
        ensures
            final(self).wf(),
            final(self)@ == old(self)@.insert(key@, val),
            result == Some(key),
    {
        let ghost b = bucket_index_of::<K>(key@);
        let found = find_in_bucket(self.key2bucket(&key), &key);
        let bucket = self.key2bucket_mut(&key);
        let ghost old_bucket = bucket@;
        match found {
            Some(i) => bucket.set(i, (key, val)),
            None => bucket.push((key, val)),
        }
        proof {
            let new_bucket = self.buckets@[b]@;
            assert forall|v: <K as View>::V| v != key@ implies (bucket_has_key(new_bucket, v)
                == bucket_has_key(old_bucket, v)) by {
                if bucket_has_key(old_bucket, v) {
                    let j = choose|j: int|
                        0 <= j < old_bucket.len() && (#[trigger] old_bucket[j].0@) == v;
                    assert(new_bucket[j].0@ == v);
                }
                if bucket_has_key(new_bucket, v) {
                    let j = choose|j: int|
                        0 <= j < new_bucket.len() && (#[trigger] new_bucket[j].0@) == v;
                    assert(old_bucket[j].0@ == v);
                }
            }
            assert forall|v: <K as View>::V|
                v != key@ && bucket_has_key(old_bucket, v) implies bucket_value(new_bucket, v)
                == bucket_value(old_bucket, v) by {
                let j = choose|j: int|
                    0 <= j < old_bucket.len() && (#[trigger] old_bucket[j].0@) == v;
                lemma_bucket_lookup(old_bucket, v, j);
                lemma_bucket_lookup(new_bucket, v, j);
            }
            match found {
                Some(i) => {
                    lemma_bucket_lookup(new_bucket, key@, i as int);
                },
                None => {
                    lemma_bucket_lookup(new_bucket, key@, new_bucket.len() - 1);
                },
            }
            assert(self@ =~= old(self)@.insert(key@, val));
        }
        Some(key)
    }

    /// Retrieves an existing value from the table, or `None` when no entry
    /// under an equal key is present.
    pub fn get(&self, key: K) -> (result: Option<&V>)
        requires
            self.wf(),
        ensures
            match result {
                Some(value) => self@.contains_key(key@) && *value == self@[key@],
                None => !self@.contains_key(key@),
            },
    {
        let bucket = self.key2bucket(&key);
        match find_in_bucket(bucket, &key) {
            Some(i) => {
                proof {
                    lemma_bucket_lookup(bucket@, key@, i as int);
                }
                Some(&bucket[i].1)
            },
            None => None,
        }
    }

    /// Removes the entry under the given key, handing its value back, or
    /// returns `None` - leaving the table untouched - when no entry under
    /// an equal key is present.
    pub fn delete(&mut self, key: K) -> (result: Option<V>)
        requires
            old(self).wf(),
        ensures
            final(self).wf(),
            final(self)@ == old(self)@.remove(key@),
            match result {
                Some(value) => old(self)@.contains_key(key@) && value == old(self)@[key@],
                None => !old(self)@.contains_key(key@) && *final(self) == *old(self),
            },
    {
        let ghost b = bucket_index_of::<K>(key@);
        let found = find_in_bucket(self.key2bucket(&key), &key);
        match found {
            Some(i) => {
                proof {
                    lemma_bucket_lookup(old(self).buckets@[b]@, key@, i as int);
                }
                let bucket = self.key2bucket_mut(&key);
                let ghost old_bucket = bucket@;
                let pair = bucket.remove(i);
                proof {
                    let new_bucket = self.buckets@[b]@;
                    assert forall|v: <K as View>::V| v != key@ implies (bucket_has_key(
                        new_bucket,
                        v,
                    ) == bucket_has_key(old_bucket, v)) by {
                        if bucket_has_key(old_bucket, v) {
                            let j = choose|j: int|
                                0 <= j < old_bucket.len() && (#[trigger] old_bucket[j].0@) == v;
                            if j < i {
                                assert(new_bucket[j].0@ == v);
                            } else {
                                assert(new_bucket[j - 1].0@ == v);
                            }
                        }
                        if bucket_has_key(new_bucket, v) {
                            let j = choose|j: int|
                                0 <= j < new_bucket.len() && (#[trigger] new_bucket[j].0@) == v;
                            if j < i {
                                assert(old_bucket[j].0@ == v);
                            } else {
                                assert(old_bucket[j + 1].0@ == v);
                            }
                        }
                    }
                    assert forall|v: <K as View>::V|
                        v != key@ && bucket_has_key(old_bucket, v) implies bucket_value(
                        new_bucket,
                        v,
                    ) == bucket_value(old_bucket, v) by {
                        let j = choose|j: int|
                            0 <= j < old_bucket.len() && (#[trigger] old_bucket[j].0@) == v;
                        lemma_bucket_lookup(old_bucket, v, j);
                        if j < i {
                            lemma_bucket_lookup(new_bucket, v, j);
                        } else {
                            lemma_bucket_lookup(new_bucket, v, j - 1);
                        }
                    }
                    assert(!bucket_has_key(new_bucket, key@)) by {
                        if bucket_has_key(new_bucket, key@) {
                            let j = choose|j: int|
                                0 <= j < new_bucket.len() && (#[trigger] new_bucket[j].0@)
                                    == key@;
                            if j < i {
                                assert(old_bucket[j].0@ == key@);
                            } else {
                                assert(old_bucket[j + 1].0@ == key@);
                            }
                        }
                    }
                    assert(self@ =~= old(self)@.remove(key@));
                }
                Some(pair.1)
            },
            None => {
                proof {
                    assert(old(self)@.remove(key@) =~= old(self)@);
                }
                None
            },
        }
    }
}

/// Scans `bucket` linearly for an entry whose key has the same abstract
/// value as `key`, returning its position.
fn find_in_bucket<K: TableKey, V>(bucket: &Vec<(K, V)>, key: &K) -> (result: Option<usize>)
    ensures
        match result {
            Some(i) => i < bucket@.len() && bucket@[i as int].0@ == key@,
            None => !bucket_has_key(bucket@, key@),
        },
{
    let mut i: usize = 0;
    while i < bucket.len()
        invariant
            i <= bucket@.len(),
            forall|j: int| 0 <= j < i ==> (#[trigger] bucket@[j].0@) != key@,
        decreases bucket@.len() - i,
    {
        if bucket[i].0.key_eq(key) {
            return Some(i);
        }
        i += 1;
    }
    None
}

/// In a bucket without repeated keys, the entry found at a position with a
/// matching key is the one entry the bucket's lookup resolves to.
proof fn lemma_bucket_lookup<K: TableKey, V>(bucket: Seq<(K, V)>, v: K::V, i: int)
    requires
        bucket_keys_distinct::<K, V>(bucket),
        0 <= i < bucket.len(),
        bucket[i].0@ == v,
    ensures
        bucket_has_key(bucket, v),
        bucket_value(bucket, v) == bucket[i].1,
{
    let j = choose|j: int| 0 <= j < bucket.len() && (#[trigger] bucket[j].0@) == v;
    assert(0 <= j < bucket.len() && bucket[j].0@ == v);
    assert(j == i);
}

/// Inserting under one key twice leaves a single binding for that key,
/// holding the value inserted last.
pub proof fn lemma_insert_twice<Key, Val>(m: Map<Key, Val>, k: Key, v1: Val, v2: Val)
    ensures
        m.insert(k, v1).insert(k, v2) == m.insert(k, v2),
        m.insert(k, v1).insert(k, v2)[k] == v2,
{
    assert(m.insert(k, v1).insert(k, v2) =~= m.insert(k, v2));
}

/// A value inserted under a key is exactly what a lookup of that key
/// then finds.
pub proof fn lemma_insert_round_trip<Key, Val>(m: Map<Key, Val>, k: Key, v: Val)
    ensures
        m.insert(k, v).contains_key(k),
        m.insert(k, v)[k] == v,
{
}

/// Removing a key right after inserting under it hands back the inserted
/// value, and a lookup of the key afterwards finds nothing.
pub proof fn lemma_insert_then_remove<Key, Val>(m: Map<Key, Val>, k: Key, v: Val)
    ensures
        m.insert(k, v)[k] == v,
        !m.insert(k, v).remove(k).contains_key(k),
{
}

/// Removing a key that is not bound leaves the map unchanged.
pub proof fn lemma_remove_absent<Key, Val>(m: Map<Key, Val>, k: Key)
    requires
        !m.contains_key(k),
    ensures
        m.remove(k) == m,
{
    assert(m.remove(k) =~= m);
}

/// Two keys with equal abstract values are routed to the same bucket
/// index, and that index is always in range.
pub proof fn lemma_bucket_deterministic<K: TableKey>(k1: K, k2: K)
    requires
        k1@ == k2@,
    ensures
        bucket_index_of::<K>(k1@) == bucket_index_of::<K>(k2@),
        0 <= bucket_index_of::<K>(k1@) < NBUCKETS,
{
}

} // verus!

