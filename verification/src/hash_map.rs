//! An open-addressing hash map with linear probing.
//!
//! At most half of the buckets are occupied. A pair goes to the first bucket,
//! from the one that its key's hash names, that is empty or holds an equal
//! key. Which bucket a hash names is up to the key type's `Hash`, so the
//! contracts here speak of the table for whatever bucket the search starts at.

use crate::hasher::NewHasher;
use crate::table::{
    around, at_free, at_key, empty_table, free, lemma_around_next, lemma_empty_table_is_free,
    lemma_fill_free_bucket, lemma_one_more_bucket, lemma_pairs_len, lemma_probe_resumes,
    lemma_put_keeps_other_keys, lemma_refill_bucket, lemma_search_stops, pairs, probe, put_from,
    same_entries, slot_for,
};
use core::hash::{Hash, Hasher};
use vstd::arithmetic::div_mod::lemma_small_mod;
use vstd::prelude::*;
use vstd::seq_lib::to_multiset_contains;
use vstd::std_specs::cmp::PartialEqSpec;

verus! {

/// What one bucket holds.
#[derive(Clone)]
pub struct Entry<K, V> {
    key: K,
    value: V,
    occupied: bool,
}

impl<K, V> View for Entry<K, V> {
    type V = (K, V);

    closed spec fn view(&self) -> (K, V) {
        (self.key, self.value)
    }
}

/// A hash map from `K` to `V`.
pub struct HashMap<K, V> {
    buckets: Vec<Option<Entry<K, V>>>,
    capacity: usize,
    size: usize,
    seed: u64,
}

/// The number of buckets of a new map.
pub const INITIAL_CAPACITY: usize = 16;

/// The bucket as a key and a value, if it is occupied.
pub open spec fn slot_of<K, V>(bucket: Option<Entry<K, V>>) -> Option<(K, V)> {
    match bucket {
        Some(entry) => Some(entry@),
        None => None,
    }
}

/// The buckets as a table of keys and values.
pub open spec fn table_of<K, V>(buckets: Seq<Option<Entry<K, V>>>) -> Seq<Option<(K, V)>> {
    buckets.map_values(|bucket: Option<Entry<K, V>>| slot_of(bucket))
}

/// The items without the references.
pub open spec fn owned<K, V>(items: Seq<(&K, &V)>) -> Seq<(K, V)> {
    items.map_values(|item: (&K, &V)| (*item.0, *item.1))
}

/// The bucket that a hash names in a table of `capacity` buckets.
pub open spec fn bucket_of(hash: u64, capacity: usize) -> int {
    (hash as usize) as int % (capacity as int)
}

impl<K, V> View for HashMap<K, V> {
    type V = Seq<Option<(K, V)>>;

    closed spec fn view(&self) -> Seq<Option<(K, V)>> {
        table_of(self.buckets@)
    }
}

impl<K, V> HashMap<K, V> {
    /// The number of buckets.
    pub closed spec fn capacity(&self) -> nat {
        self.capacity as nat
    }

    /// The number of occupied buckets that the map has counted.
    pub closed spec fn len(&self) -> nat {
        self.size as nat
    }

    /// The seed that every hash of the map starts from.
    pub closed spec fn seed(&self) -> u64 {
        self.seed
    }

    /// The table has as many buckets as the map says, an even number of at
    /// least sixteen, and the map has counted the occupied ones, which are at
    /// most half of all.
    pub open spec fn wf(&self) -> bool {
        &&& self@.len() == self.capacity()
        &&& self.capacity() >= INITIAL_CAPACITY
        &&& self.capacity() % 2 == 0
        &&& self.len() + free(self@) == self.capacity()
        &&& 2 * self.len() <= self.capacity()
    }
}

/// Calls `Hash::hash` of the key on the hasher, which takes in what the key
/// writes. What a key writes is up to the key type, so nothing is claimed of
/// the state that the hasher is left in.
#[verifier::external_body]
fn feed<K: Hash>(key: &K, hasher: &mut NewHasher) {
    key.hash(hasher);
}

/// The bucket that `hash` names in a table of `capacity` buckets.
pub fn bucket_index(hash: u64, capacity: usize) -> (index: usize)
    requires
        capacity > 0,
    ensures
        index == bucket_of(hash, capacity),
        index < capacity,
{
    (#[verifier::truncate] (hash as usize)) % capacity
}

/// A vector of `capacity` empty buckets.
fn empty_buckets<K, V>(capacity: usize) -> (buckets: Vec<Option<Entry<K, V>>>)
    ensures
        buckets@.len() == capacity,
        forall|i: int| 0 <= i < capacity ==> buckets@[i] is None,
{
    let mut buckets: Vec<Option<Entry<K, V>>> = Vec::with_capacity(capacity);
    for n in 0..capacity
        invariant
            buckets@.len() == n,
            forall|i: int| 0 <= i < n ==> buckets@[i] is None,
    {
        buckets.push(None);
    }
    buckets
}

impl<K: Hash, V> HashMap<K, V> {
    /// The bucket at which the search for `key` starts.
    pub fn hash_u64(&self, key: &K) -> (index: usize)
        requires
            self.capacity() > 0,
        ensures
            index < self.capacity(),
    {
        let mut hasher = NewHasher::new(self.seed);
        feed(key, &mut hasher);
        let hash: u64 = hasher.finish();
        bucket_index(hash, self.capacity)
    }

    /// An empty map of sixteen buckets whose hashes start from `seed`.
    pub fn new(seed: u64) -> (map: Self)
        ensures
            map.wf(),
            map@ == empty_table::<K, V>(INITIAL_CAPACITY as nat),
            map.capacity() == INITIAL_CAPACITY,
            map.len() == 0,
            map.seed() == seed,
    {
        let capacity: usize = INITIAL_CAPACITY;
        let buckets = empty_buckets::<K, V>(capacity);
        let map = Self { buckets, capacity, size: 0, seed };
        proof {
            assert(map@ =~= empty_table::<K, V>(capacity as nat));
            lemma_empty_table_is_free::<K, V>(capacity as nat);
        }
        map
    }

    /// Puts `entry` into the first free bucket from `start` on.
    fn place(&mut self, start: usize, entry: Entry<K, V>) -> (slot: usize)
        requires
            old(self)@.len() == old(self).capacity(),
            old(self).capacity() > 1,
            start < old(self).capacity(),
            free(old(self)@) > 0,
        ensures
            slot == probe(old(self)@, at_free::<K, V>(), start as int, old(self)@.len()),
            slot < old(self).capacity(),
            old(self)@[slot as int] is None,
            final(self)@ == old(self)@.update(slot as int, Some(entry@)),
            final(self).capacity() == old(self).capacity(),
            final(self).len() == old(self).len(),
            final(self).seed() == old(self).seed(),
    {
        let ghost table = self@;
        let ghost stop = at_free::<K, V>();
        let ghost len = table.len() as int;
        let ghost mut passed: int = 0;
        let mut index: usize = start;
        proof {
            lemma_small_mod(start as nat, len as nat);
            lemma_search_stops(table, stop, start as int);
        }
        while self.buckets[index].is_some()
            invariant
                self@ == table,
                *self == *old(self),
                table.len() == self.capacity > 1,
                len == table.len(),
                stop == at_free::<K, V>(),
                self.buckets@.len() == self.capacity,
                start < self.capacity,
                0 <= passed < len,
                index == around(start as int, passed, len),
                index < self.capacity,
                forall|offset: int|
                    0 <= offset < passed ==>
                        !stop(#[trigger] table[around(start as int, offset, len)]),
                exists|offset: int|
                    0 <= offset < len && stop(#[trigger] table[around(start as int, offset, len)]),
            decreases len - passed,
        {
            proof {
                assert(table[index as int] == slot_of(self.buckets@[index as int]));
                lemma_around_next(start as int, passed, len);
                if passed + 1 == len {
                    let offset = choose|offset: int|
                        0 <= offset < len
                            && stop(#[trigger] table[around(start as int, offset, len)]);
                    assert(false);
                }
                passed = passed + 1;
            }
            index = (index + 1) % self.capacity;
        }
        proof {
            lemma_probe_resumes(table, stop, start as int, passed);
            assert(table[index as int] == slot_of(self.buckets@[index as int]));
        }
        self.buckets[index] = Some(entry);
        proof {
            assert(self@ =~= table.update(index as int, Some(entry@)));
        }
        index
    }
}

impl<K: Eq + Clone + Hash, V: Clone> HashMap<K, V> {
    /// Puts the pair into the map. Where half of the buckets are occupied the
    /// table is doubled first. The pair then goes to the first bucket, from
    /// the one that the key's hash names, that is empty or holds an equal
    /// key, whose value it replaces.
    pub fn insert(&mut self, key: K, value: V)
        requires
            old(self).wf(),
            K::obeys_eq_spec(),
            2 * old(self).capacity() <= usize::MAX,
        ensures
            final(self).wf(),
            final(self).seed() == old(self).seed(),
            final(self).capacity() == if 2 * old(self).len() >= old(self).capacity() {
                2 * old(self).capacity()
            } else {
                old(self).capacity()
            },
            old(self).len() <= final(self).len() <= old(self).len() + 1,
            final(self)@.contains(Some((key, value))),
            forall|pair: (K, V)|
                #![trigger final(self)@.to_multiset().count(Some(pair))]
                !pair.0.eq_spec(&key) && pair != (key, value) ==> final(self)@.to_multiset().count(
                    Some(pair),
                ) == old(self)@.to_multiset().count(Some(pair)),
            exists|table: Seq<Option<(K, V)>>, start: int|
                {
                    &&& #[trigger] put_from(table, start, key, value, final(self)@)
                    &&& table.len() == final(self).capacity()
                    &&& same_entries(table, old(self)@)
                    &&& final(self).capacity() == old(self).capacity() ==> table == old(self)@
                    &&& final(self).len() == old(self).len() + if table[slot_for(
                        table,
                        start,
                        key,
                    )] is None {
                        1int
                    } else {
                        0int
                    }
                },
    {
        if self.size * 2 >= self.capacity {
            self.resize();
        }
        let ghost table = self@;
        let index: usize = self.hash_u64(&key);
        self.insert_at(index, key, value);
        proof {
            assert(put_from(table, index as int, key, value, self@));
            lemma_put_keeps_other_keys(table, index as int, key, value, self@);
        }
    }

    /// Puts the pair into the bucket that the search for `key` finds from
    /// `start` on: the first that is empty or holds an equal key, whose value
    /// the new pair replaces.
    pub fn insert_at(&mut self, start: usize, key: K, value: V)
        requires
            old(self).wf(),
            K::obeys_eq_spec(),
            start < old(self).capacity(),
            2 * (old(self).len() + 1) <= old(self).capacity(),
        ensures
            final(self).wf(),
            final(self).capacity() == old(self).capacity(),
            final(self).seed() == old(self).seed(),
            put_from(old(self)@, start as int, key, value, final(self)@),
            final(self).len() == old(self).len() + if old(self)@[slot_for(
                old(self)@,
                start as int,
                key,
            )] is None {
                1int
            } else {
                0int
            },
    {
        let ghost table = self@;
        let ghost stop = at_key::<K, V>(key);
        let ghost len = table.len() as int;
        let mut index: usize = start;
        let new_entry = Entry { key, value, occupied: true };
        proof {
            lemma_small_mod(start as nat, len as nat);
            lemma_search_stops(table, stop, start as int);
        }
        let capacity: usize = self.capacity;
        for step in 0..capacity
            invariant
                capacity == self.capacity,
                *self == *old(self),
                self@ == table,
                self.wf(),
                K::obeys_eq_spec(),
                2 * (self.size + 1) <= self.capacity,
                len == table.len() == self.capacity,
                self.buckets@.len() == self.capacity,
                stop == at_key::<K, V>(key),
                new_entry@ == (key, value),
                start < self.capacity,
                index == around(start as int, step as int, len),
                index < self.capacity,
                forall|offset: int|
                    0 <= offset < step ==>
                        !stop(#[trigger] table[around(start as int, offset, len)]),
                exists|offset: int|
                    0 <= offset < len && stop(#[trigger] table[around(start as int, offset, len)]),
        {
            proof {
                assert(table[index as int] == slot_of(self.buckets@[index as int]));
                lemma_around_next(start as int, step as int, len);
                lemma_probe_resumes(table, stop, start as int, step as int);
            }
            match &self.buckets[index] {
                Some(entry) if entry.key == new_entry.key => {
                    self.buckets[index] = Some(new_entry);
                    proof {
                        assert(self@ =~= table.update(index as int, Some((key, value))));
                        lemma_refill_bucket(table, index as int, (key, value));
                    }
                    return ;
                },
                None => {
                    self.buckets[index] = Some(new_entry);
                    self.size += 1;
                    proof {
                        assert(self@ =~= table.update(index as int, Some((key, value))));
                        lemma_fill_free_bucket(table, index as int, (key, value));
                    }
                    return ;
                },
                _ => {
                    index = (index + 1) % self.capacity;
                },
            }
        }
        proof {
            let offset = choose|offset: int|
                0 <= offset < len && stop(#[trigger] table[around(start as int, offset, len)]);
            assert(false);
        }
    }

    /// Doubles the number of buckets and puts every pair into the new table
    /// again, each into the first free bucket from the one that its key's hash
    /// names now.
    pub fn resize(&mut self)
        requires
            old(self).wf(),
            2 * old(self).capacity() <= usize::MAX,
        ensures
            final(self).wf(),
            final(self).capacity() == 2 * old(self).capacity(),
            final(self).len() == old(self).len(),
            final(self).seed() == old(self).seed(),
            same_entries(final(self)@, old(self)@),
    {
        let ghost old_table = self@;
        let ghost old_capacity = self.capacity;
        let mut old_buckets: Vec<Option<Entry<K, V>>> = Vec::new();
        core::mem::swap(&mut old_buckets, &mut self.buckets);
        self.capacity *= 2;
        self.buckets = empty_buckets(self.capacity);
        proof {
            assert(self@ =~= empty_table::<K, V>(self.capacity as nat));
            lemma_empty_table_is_free::<K, V>(self.capacity as nat);
            assert(old_table.take(0) =~= Seq::<Option<(K, V)>>::empty());
            to_multiset_contains(old_table.take(0), None::<(K, V)>);
            assert forall|pair: (K, V)|
                #![trigger old_table.take(0).to_multiset().count(Some(pair))]
                old_table.take(0).to_multiset().count(Some(pair)) == 0 by {
                to_multiset_contains(old_table.take(0), Some(pair));
            }
        }
        let ghost old_seq = old_buckets@;
        for entry_opt in it: old_buckets.into_iter()
            invariant
                it.seq() == old_seq,
                table_of(old_seq) == old_table,
                old_table.len() == old_capacity,
                old_capacity >= INITIAL_CAPACITY,
                self.capacity == 2 * old_capacity,
                self@.len() == self.capacity,
                self.size == old(self).size,
                self.seed == old(self).seed,
                same_entries(self@, old_table.take(it.index() as int)),
                free(self@) + (it.index() - free(old_table.take(it.index() as int)))
                    == self.capacity,
        {
            let ghost done = old_table.take(it.index() as int);
            let ghost table = self@;
            proof {
                assert(old_table.take(it.index() + 1) =~= done.push(old_table[it.index() as int]));
                assert(old_table[it.index() as int] == slot_of(entry_opt));
                lemma_one_more_bucket(done, old_table[it.index() as int]);
            }
            if let Some(entry) = entry_opt {
                let index: usize = self.hash_u64(&entry.key);
                let ghost pair = entry@;
                let slot: usize = self.place(index, entry);
                proof {
                    lemma_fill_free_bucket(table, slot as int, pair);
                }
            }
        }
        proof {
            assert(old_table.take(old_table.len() as int) =~= old_table);
        }
    }

    /// The keys and values of the occupied buckets, in bucket order.
    pub fn iter(&self) -> (items: Vec<(&K, &V)>)
        ensures
            owned(items@) == pairs(self@),
            self.wf() ==> items@.len() == self.len(),
    {
        let mut items: Vec<(&K, &V)> = Vec::new();
        for i in 0..self.buckets.len()
            invariant
                owned(items@) == pairs(self@.take(i as int)),
        {
            proof {
                assert(self@.take(i + 1).drop_last() =~= self@.take(i as int));
                assert(self@.take(i + 1).last() == slot_of(self.buckets@[i as int]));
            }
            if let Some(entry) = &self.buckets[i] {
                items.push((&entry.key, &entry.value));
                proof {
                    assert(owned(items@) =~= owned(items@.drop_last()) + seq![entry@]);
                }
            }
        }
        proof {
            assert(self@.take(self.buckets@.len() as int) =~= self@);
            lemma_pairs_len(self@);
            assert(owned(items@).len() == items@.len());
        }
        items
    }
}

} // verus!
