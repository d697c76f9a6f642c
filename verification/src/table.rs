//! Tables of buckets and the search through them.
//!
//! A table is a sequence of buckets, each empty or holding a key and a value.
//! A search starts at some bucket and goes on bucket by bucket, round at the
//! end of the table, to the first bucket at which it stops: an empty one, or
//! one that holds the key that is looked for.

use vstd::arithmetic::div_mod::{
    lemma_add_mod_noop, lemma_mod_add_multiples_vanish, lemma_mod_bound, lemma_small_mod,
};
use vstd::prelude::*;
use vstd::seq_lib::{to_multiset_build, to_multiset_contains, to_multiset_update};
use vstd::std_specs::cmp::PartialEqSpec;

verus! {

/// The table with no bucket occupied.
pub open spec fn empty_table<K, V>(len: nat) -> Seq<Option<(K, V)>> {
    Seq::new(len, |i: int| None::<(K, V)>)
}

/// The number of empty buckets.
pub open spec fn free<K, V>(table: Seq<Option<(K, V)>>) -> nat {
    table.to_multiset().count(None::<(K, V)>)
}

/// The two tables hold the same pairs, each as often as the other.
pub open spec fn same_entries<K, V>(a: Seq<Option<(K, V)>>, b: Seq<Option<(K, V)>>) -> bool {
    forall|pair: (K, V)|
        #![trigger a.to_multiset().count(Some(pair))]
        #![trigger b.to_multiset().count(Some(pair))]
        a.to_multiset().count(Some(pair)) == b.to_multiset().count(Some(pair))
}

/// The pairs of the table in bucket order.
pub open spec fn pairs<K, V>(table: Seq<Option<(K, V)>>) -> Seq<(K, V)> {
    table.filter_map(|slot: Option<(K, V)>| slot)
}

/// The bucket that is `offset` buckets after `start`, going round at the end
/// of a table of `len` buckets.
pub open spec fn around(start: int, offset: int, len: int) -> int {
    (start + offset) % len
}

/// The search for a free bucket stops at an empty bucket.
pub open spec fn at_free<K, V>() -> spec_fn(Option<(K, V)>) -> bool {
    |slot: Option<(K, V)>| slot is None
}

/// The search for `key` stops at an empty bucket and at one that holds a key
/// equal to `key`.
pub open spec fn at_key<K: PartialEq, V>(key: K) -> spec_fn(Option<(K, V)>) -> bool {
    |slot: Option<(K, V)>|
        match slot {
            Some(pair) => pair.0.eq_spec(&key),
            None => true,
        }
}

/// Linear probing: the first bucket that meets `stop`, looking at `steps`
/// buckets from `at` on and going round at the end of the table; `at` moved on
/// by `steps` if there is none.
pub open spec fn probe<K, V>(
    table: Seq<Option<(K, V)>>,
    stop: spec_fn(Option<(K, V)>) -> bool,
    at: int,
    steps: nat,
) -> int
    decreases steps,
{
    if steps == 0 || stop(table[at]) {
        at
    } else {
        probe(table, stop, (at + 1) % (table.len() as int), (steps - 1) as nat)
    }
}

/// The bucket that the search for `key` from `start` ends at.
pub open spec fn slot_for<K: PartialEq, V>(table: Seq<Option<(K, V)>>, start: int, key: K) -> int {
    probe(table, at_key::<K, V>(key), start, table.len())
}

/// `after` is `before` with the pair put where the search for its key from
/// `start` ends, which is an empty bucket or one that held an equal key.
pub open spec fn put_from<K: PartialEq, V>(
    before: Seq<Option<(K, V)>>,
    start: int,
    key: K,
    value: V,
    after: Seq<Option<(K, V)>>,
) -> bool {
    let slot = slot_for(before, start, key);
    &&& 0 <= start < before.len()
    &&& 0 <= slot < before.len()
    &&& at_key::<K, V>(key)(before[slot])
    &&& after == before.update(slot, Some((key, value)))
}

/// Going round the table from any bucket reaches every bucket.
pub proof fn lemma_around_reaches(start: int, target: int, len: int) -> (offset: int)
    requires
        0 <= start < len,
        0 <= target < len,
    ensures
        0 <= offset < len,
        around(start, offset, len) == target,
{
    lemma_small_mod(target as nat, len as nat);
    if target >= start {
        target - start
    } else {
        lemma_mod_add_multiples_vanish(target, len);
        target - start + len
    }
}

/// One bucket further round the table.
pub proof fn lemma_around_next(start: int, offset: int, len: int)
    requires
        0 <= start < len,
        0 <= offset,
        len > 1,
    ensures
        0 <= around(start, offset, len) < len,
        around(start, offset + 1, len) == (around(start, offset, len) + 1) % len,
{
    lemma_add_mod_noop(start + offset, 1, len);
    lemma_small_mod(1, len as nat);
    lemma_mod_bound(start + offset, len);
}

/// A table with a free bucket has a bucket that stops the search, within one
/// round from anywhere.
pub proof fn lemma_search_stops<K, V>(
    table: Seq<Option<(K, V)>>,
    stop: spec_fn(Option<(K, V)>) -> bool,
    start: int,
)
    requires
        0 <= start < table.len(),
        free(table) > 0,
        stop(None::<(K, V)>),
    ensures
        exists|offset: int|
            0 <= offset < table.len()
                && stop(#[trigger] table[around(start, offset, table.len() as int)]),
{
    to_multiset_contains(table, None::<(K, V)>);
    let target = choose|i: int| 0 <= i < table.len() && table[i] == None::<(K, V)>;
    let offset = lemma_around_reaches(start, target, table.len() as int);
    assert(stop(table[around(start, offset, table.len() as int)]));
}

/// What the search finds: with `passed` buckets behind it that did not stop
/// it, the search from `start` is the search from where it stands.
pub proof fn lemma_probe_resumes<K, V>(
    table: Seq<Option<(K, V)>>,
    stop: spec_fn(Option<(K, V)>) -> bool,
    start: int,
    passed: int,
)
    requires
        table.len() > 1,
        0 <= start < table.len(),
        0 <= passed <= table.len(),
        forall|offset: int|
            0 <= offset < passed ==>
                !stop(#[trigger] table[around(start, offset, table.len() as int)]),
    ensures
        probe(table, stop, start, table.len()) == probe(
            table,
            stop,
            around(start, passed, table.len() as int),
            (table.len() - passed) as nat,
        ),
    decreases passed,
{
    let len = table.len() as int;
    if passed == 0 {
        lemma_small_mod(start as nat, len as nat);
    } else {
        lemma_probe_resumes(table, stop, start, passed - 1);
        lemma_around_next(start, passed - 1, len);
        assert(!stop(table[around(start, passed - 1, len)]));
    }
}

/// In the table with no bucket occupied every bucket is free.
pub proof fn lemma_empty_table_is_free<K, V>(len: nat)
    ensures
        free(empty_table::<K, V>(len)) == len,
        forall|pair: (K, V)|
            #![trigger empty_table::<K, V>(len).to_multiset().count(Some(pair))]
            empty_table::<K, V>(len).to_multiset().count(Some(pair)) == 0,
    decreases len,
{
    let table = empty_table::<K, V>(len);
    assert forall|pair: (K, V)|
        #![trigger table.to_multiset().count(Some(pair))]
        table.to_multiset().count(Some(pair)) == 0 by {
        to_multiset_contains(table, Some(pair));
    }
    if len == 0 {
        to_multiset_contains(table, None::<(K, V)>);
    } else {
        let shorter = empty_table::<K, V>((len - 1) as nat);
        lemma_empty_table_is_free::<K, V>((len - 1) as nat);
        assert(table =~= shorter.push(None::<(K, V)>));
        to_multiset_build(shorter, None::<(K, V)>);
    }
}

/// What one more bucket at the end does to the count of free buckets and of
/// each pair.
pub proof fn lemma_one_more_bucket<K, V>(table: Seq<Option<(K, V)>>, last: Option<(K, V)>)
    ensures
        free(table.push(last)) == free(table) + if last is None {
            1int
        } else {
            0int
        },
        forall|other: (K, V)|
            #![trigger table.push(last).to_multiset().count(Some(other))]
            table.push(last).to_multiset().count(Some(other)) == table.to_multiset().count(
                Some(other),
            ) + if last == Some(other) {
                1int
            } else {
                0int
            },
{
    broadcast use vstd::multiset::group_multiset_axioms;

    to_multiset_build(table, last);
}

/// What putting a pair into a free bucket does to the count of free buckets
/// and of each pair.
pub proof fn lemma_fill_free_bucket<K, V>(table: Seq<Option<(K, V)>>, slot: int, pair: (K, V))
    requires
        0 <= slot < table.len(),
        table[slot] is None,
    ensures
        free(table) > 0,
        free(table.update(slot, Some(pair))) == free(table) - 1,
        forall|other: (K, V)|
            #![trigger table.update(slot, Some(pair)).to_multiset().count(Some(other))]
            table.update(slot, Some(pair)).to_multiset().count(Some(other))
                == table.to_multiset().count(Some(other)) + if other == pair {
                1int
            } else {
                0int
            },
{
    broadcast use vstd::multiset::group_multiset_axioms;

    to_multiset_update(table, slot, Some(pair));
    to_multiset_contains(table, None::<(K, V)>);
    assert(table.contains(None::<(K, V)>));
}

/// What overwriting an occupied bucket does to the count of free buckets.
pub proof fn lemma_refill_bucket<K, V>(table: Seq<Option<(K, V)>>, slot: int, pair: (K, V))
    requires
        0 <= slot < table.len(),
        table[slot] is Some,
    ensures
        free(table.update(slot, Some(pair))) == free(table),
{
    broadcast use vstd::multiset::group_multiset_axioms;

    to_multiset_update(table, slot, Some(pair));
    to_multiset_contains(table, table[slot]);
    assert(table.contains(table[slot]));
}

/// The pairs of a table are its buckets less the free ones.
pub proof fn lemma_pairs_len<K, V>(table: Seq<Option<(K, V)>>)
    ensures
        pairs(table).len() + free(table) == table.len(),
    decreases table.len(),
{
    if table.len() == 0 {
        to_multiset_contains(table, None::<(K, V)>);
    } else {
        lemma_pairs_len(table.drop_last());
        assert(table =~= table.drop_last().push(table.last()));
        lemma_one_more_bucket(table.drop_last(), table.last());
    }
}

/// Putting a pair leaves the table with the pair in it, and with every pair
/// under another key as often as before.
pub proof fn lemma_put_keeps_other_keys<K: PartialEq, V>(
    before: Seq<Option<(K, V)>>,
    start: int,
    key: K,
    value: V,
    after: Seq<Option<(K, V)>>,
)
    requires
        put_from(before, start, key, value, after),
    ensures
        after.len() == before.len(),
        after.contains(Some((key, value))),
        forall|pair: (K, V)|
            #![trigger after.to_multiset().count(Some(pair))]
            !pair.0.eq_spec(&key) && pair != (key, value) ==> after.to_multiset().count(Some(pair))
                == before.to_multiset().count(Some(pair)),
{
    broadcast use vstd::multiset::group_multiset_axioms;

    let slot = slot_for(before, start, key);
    to_multiset_update(before, slot, Some((key, value)));
    to_multiset_contains(before, before[slot]);
    assert(before.contains(before[slot]));
    assert(after[slot] == Some((key, value)));
}

/// Keys are equal under `==` exactly when they are the same key.
pub open spec fn eq_is_identity<K: PartialEq>() -> bool {
    forall|a: K, b: K| #[trigger] a.eq_spec(&b) <==> a == b
}

/// Every pair sits where the search for its key ends when it starts from the
/// key's home bucket.
pub open spec fn settled<K: PartialEq, V>(
    table: Seq<Option<(K, V)>>,
    home: spec_fn(K) -> int,
) -> bool {
    forall|slot: int|
        0 <= slot < table.len() && (#[trigger] table[slot]) is Some ==> {
            let key = table[slot].unwrap().0;
            &&& 0 <= home(key) < table.len()
            &&& slot_for(table, home(key), key) == slot
        }
}

/// Some bucket holds `key`.
pub open spec fn has_key<K, V>(table: Seq<Option<(K, V)>>, key: K) -> bool {
    exists|slot: int| holds_key(table, slot, key)
}

/// The bucket `slot` holds `key`.
pub open spec fn holds_key<K, V>(table: Seq<Option<(K, V)>>, slot: int, key: K) -> bool {
    0 <= slot < table.len() && table[slot] is Some && table[slot].unwrap().0 == key
}

/// The table as a map: each key that some bucket holds, with the value beside
/// it. It says all that the table holds where no key sits in two buckets.
pub open spec fn as_map<K, V>(table: Seq<Option<(K, V)>>) -> Map<K, V> {
    Map::new(
        |key: K| has_key(table, key),
        |key: K| table[choose|slot: int| holds_key(table, slot, key)].unwrap().1,
    )
}

/// A search that passes `offset` buckets which do not stop it and then comes
/// to one that does ends there.
pub proof fn lemma_probe_finds<K, V>(
    table: Seq<Option<(K, V)>>,
    stop: spec_fn(Option<(K, V)>) -> bool,
    start: int,
    offset: int,
)
    requires
        table.len() > 1,
        0 <= start < table.len(),
        0 <= offset < table.len(),
        forall|passed: int|
            0 <= passed < offset ==>
                !stop(#[trigger] table[around(start, passed, table.len() as int)]),
        stop(table[around(start, offset, table.len() as int)]),
    ensures
        probe(table, stop, start, table.len()) == around(start, offset, table.len() as int),
{
    lemma_probe_resumes(table, stop, start, offset);
}

/// The way of a search through a table that has a bucket at which it stops:
/// the number of buckets that it passes before it ends.
pub proof fn lemma_probe_path<K, V>(
    table: Seq<Option<(K, V)>>,
    stop: spec_fn(Option<(K, V)>) -> bool,
    start: int,
    passed: int,
) -> (offset: int)
    requires
        table.len() > 1,
        0 <= start < table.len(),
        0 <= passed < table.len(),
        forall|earlier: int|
            0 <= earlier < passed ==>
                !stop(#[trigger] table[around(start, earlier, table.len() as int)]),
        exists|later: int|
            0 <= later < table.len()
                && stop(#[trigger] table[around(start, later, table.len() as int)]),
    ensures
        passed <= offset < table.len(),
        probe(table, stop, start, table.len()) == around(start, offset, table.len() as int),
        0 <= around(start, offset, table.len() as int) < table.len(),
        stop(table[around(start, offset, table.len() as int)]),
        forall|earlier: int|
            0 <= earlier < offset ==>
                !stop(#[trigger] table[around(start, earlier, table.len() as int)]),
    decreases table.len() - passed,
{
    let len = table.len() as int;
    lemma_around_next(start, passed, len);
    if stop(table[around(start, passed, len)]) {
        lemma_probe_finds(table, stop, start, passed);
        passed
    } else {
        let later = choose|later: int|
            0 <= later < len && stop(#[trigger] table[around(start, later, len)]);
        assert(later > passed);
        lemma_probe_path(table, stop, start, passed + 1)
    }
}

/// In a settled table no key sits in two buckets.
pub proof fn law_settled_keys_are_unique<K: PartialEq, V>(
    table: Seq<Option<(K, V)>>,
    home: spec_fn(K) -> int,
    key: K,
    one: int,
    other: int,
)
    requires
        settled(table, home),
        holds_key(table, one, key),
        holds_key(table, other, key),
    ensures
        one == other,
{
    assert(table[one] is Some);
    assert(table[other] is Some);
}

/// A bucket that holds `key` stops the search for `key` from anywhere.
proof fn lemma_key_stops_search<K: PartialEq, V>(
    table: Seq<Option<(K, V)>>,
    key: K,
    start: int,
    slot: int,
)
    requires
        eq_is_identity::<K>(),
        0 <= start < table.len(),
        0 <= slot < table.len(),
        at_key::<K, V>(key)(table[slot]),
    ensures
        exists|later: int|
            0 <= later < table.len() && at_key::<K, V>(key)(
                #[trigger] table[around(start, later, table.len() as int)],
            ),
{
    let later = lemma_around_reaches(start, slot, table.len() as int);
    assert(at_key::<K, V>(key)(table[around(start, later, table.len() as int)]));
}

/// Putting a pair by a search from its key's home bucket leaves a settled
/// table settled.
pub proof fn law_put_keeps_settled<K: PartialEq, V>(
    before: Seq<Option<(K, V)>>,
    home: spec_fn(K) -> int,
    key: K,
    value: V,
    after: Seq<Option<(K, V)>>,
)
    requires
        eq_is_identity::<K>(),
        before.len() > 1,
        settled(before, home),
        put_from(before, home(key), key, value, after),
    ensures
        settled(after, home),
{
    let len = before.len() as int;
    let slot = slot_for(before, home(key), key);
    lemma_key_stops_search(before, key, home(key), slot);
    let offset = lemma_probe_path(before, at_key::<K, V>(key), home(key), 0);
    assert forall|at: int| 0 <= at < after.len() && (#[trigger] after[at]) is Some implies ({
        let held = after[at].unwrap().0;
        &&& 0 <= home(held) < after.len()
        &&& slot_for(after, home(held), held) == at
    }) by {
        let held = after[at].unwrap().0;
        if at == slot {
            assert forall|earlier: int| 0 <= earlier < offset implies !at_key::<K, V>(key)(
                #[trigger] after[around(home(key), earlier, len)],
            ) by {
                lemma_around_next(home(key), earlier, len);
                assert(!at_key::<K, V>(key)(before[around(home(key), earlier, len)]));
            }
            lemma_probe_finds(after, at_key::<K, V>(key), home(key), offset);
        } else {
            assert(before[at] is Some);
            assert(after[at] == before[at]);
            assert(slot_for(before, home(held), held) == at);
            assert(held != key);
            lemma_key_stops_search(before, held, home(held), at);
            let way = lemma_probe_path(before, at_key::<K, V>(held), home(held), 0);
            assert forall|earlier: int| 0 <= earlier < way implies !at_key::<K, V>(held)(
                #[trigger] after[around(home(held), earlier, len)],
            ) by {
                lemma_around_next(home(held), earlier, len);
                assert(!at_key::<K, V>(held)(before[around(home(held), earlier, len)]));
            }
            lemma_probe_finds(after, at_key::<K, V>(held), home(held), way);
        }
    }
}

/// Putting a pair by a search from its key's home bucket is, for a settled
/// table, the insertion of the pair into the map that the table stands for:
/// the value of an equal key is replaced, and all other keys keep theirs.
pub proof fn law_put_is_map_insert<K: PartialEq, V>(
    before: Seq<Option<(K, V)>>,
    home: spec_fn(K) -> int,
    key: K,
    value: V,
    after: Seq<Option<(K, V)>>,
)
    requires
        eq_is_identity::<K>(),
        before.len() > 1,
        settled(before, home),
        put_from(before, home(key), key, value, after),
    ensures
        as_map(after) == as_map(before).insert(key, value),
{
    law_put_keeps_settled(before, home, key, value, after);
    let slot = slot_for(before, home(key), key);
    assert(holds_key(after, slot, key));
    assert forall|other: K| has_key(after, other) <==> other == key || has_key(before, other) by {
        if has_key(after, other) && other != key {
            let at = choose|at: int| holds_key(after, at, other);
            assert(holds_key(before, at, other));
        }
        if has_key(before, other) && other != key {
            let at = choose|at: int| holds_key(before, at, other);
            assert(holds_key(after, at, other));
        }
    }
    assert forall|other: K| has_key(after, other) implies #[trigger] as_map(after)[other]
        == as_map(before).insert(key, value)[other] by {
        let now = choose|at: int| holds_key(after, at, other);
        if other == key {
            law_settled_keys_are_unique(after, home, key, now, slot);
        } else {
            let then = choose|at: int| holds_key(before, at, other);
            assert(holds_key(after, then, other));
            law_settled_keys_are_unique(after, home, other, now, then);
        }
    }
    assert(as_map(after) =~= as_map(before).insert(key, value));
}

/// The empty table is settled, and stands for the empty map.
pub proof fn law_empty_table_is_settled<K: PartialEq, V>(len: nat, home: spec_fn(K) -> int)
    ensures
        settled(empty_table::<K, V>(len), home),
        as_map(empty_table::<K, V>(len)) == Map::<K, V>::empty(),
{
    assert(as_map(empty_table::<K, V>(len)) =~= Map::<K, V>::empty());
}

} // verus!
