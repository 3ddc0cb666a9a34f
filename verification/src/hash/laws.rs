//! What holds of the operations of a table taken together.
use crate::hash::hasher::{
    eq_is_equivalence, hash_fn, law_hash_fn_is_the_hasher, respects_eq, KeyHasher,
};
use crate::hash::model::{
    chain_of, free_of, leads_to_greatest, lemma_chain_of, lemma_empty_wf, lemma_free_of,
    lemma_inserted_wf, lemma_rehashed_sound, lemma_rehashed_wf, lemma_removed_is, lemma_removed_wf,
    lemma_replaced_wf, link_at, occupied_count, slot_of_hash, walk, Links, Table, INVALID_POS,
};
use rustc_hash::FxBuildHasher;
use vstd::prelude::*;
use vstd::std_specs::cmp::PartialEqSpec;

verus! {

impl<K: PartialEq, V> Table<K, V> {
    /// The key in the occupied bucket `i`.
    pub open spec fn key(self, i: int) -> K {
        self.buckets[i].unwrap().0
    }

    /// No chain holds two equal keys.
    pub open spec fn distinct(self) -> bool {
        forall|i: int, j: int, s: int, p: int, q: int| #[trigger]
            self.linked(i, s, p) && #[trigger] self.linked(j, s, q) && p != q ==> !self.key(
                i,
            ).eq_spec(&self.key(j))
    }

    /// Every bucket hangs in the chain that the hash of its key selects.
    pub open spec fn placed_by(self, hash: spec_fn(K) -> u64) -> bool {
        forall|i: int, s: int, p: int| #[trigger]
            self.linked(i, s, p) ==> s == self.slot(hash(self.key(i)))
    }
}

proof fn lemma_slot_bound<K, V>(t: Table<K, V>, hash: u64)
    requires
        t.chains.len() > 0,
    ensures
        0 <= t.slot(hash) < t.chains.len(),
{
    let h = hash as int;
    let d = t.chains.len() as int;
    assert(0 <= h % d < d) by (nonlinear_arith)
        requires
            d > 0,
    ;
}

/// What `find_from` gives: the first position with an equal key.
proof fn lemma_find_from<K: PartialEq, V>(t: Table<K, V>, s: int, key: K, p: int)
    requires
        0 <= p,
    ensures
        match t.find_from(s, key, p) {
            Some(q) => {
                &&& p <= q < t.chains[s].len()
                &&& t.key(t.chains[s][q]).eq_spec(&key)
                &&& forall|r: int| p <= r < q ==> !t.key(#[trigger] t.chains[s][r]).eq_spec(&key)
            },
            None => forall|r: int|
                p <= r < t.chains[s].len() ==> !t.key(#[trigger] t.chains[s][r]).eq_spec(&key),
        },
    decreases t.chains[s].len() - p,
{
    if p < t.chains[s].len() && !t.key(t.chains[s][p]).eq_spec(&key) {
        lemma_find_from(t, s, key, p + 1);
    }
}

/// A position with an equal key before which there is none is the one that is found.
proof fn lemma_find_is<K: PartialEq, V>(t: Table<K, V>, s: int, key: K, q: int)
    requires
        0 <= q < t.chains[s].len(),
        t.key(t.chains[s][q]).eq_spec(&key),
        forall|r: int| 0 <= r < q ==> !t.key(#[trigger] t.chains[s][r]).eq_spec(&key),
    ensures
        t.find_from(s, key, 0) == Some(q),
{
    lemma_find_from(t, s, key, 0);
    if let Some(r) = t.find_from(s, key, 0) {
        if r < q {
            assert(!t.key(t.chains[s][r]).eq_spec(&key));
        } else if r > q {
            assert(!t.key(t.chains[s][q]).eq_spec(&key));
        }
    } else {
        assert(!t.key(t.chains[s][q]).eq_spec(&key));
    }
}

proof fn lemma_find_none<K: PartialEq, V>(t: Table<K, V>, s: int, key: K)
    requires
        forall|r: int|
            0 <= r < t.chains[s].len() ==> !t.key(#[trigger] t.chains[s][r]).eq_spec(&key),
    ensures
        t.find_from(s, key, 0) is None,
{
    lemma_find_from(t, s, key, 0);
    if let Some(r) = t.find_from(s, key, 0) {
        assert(!t.key(t.chains[s][r]).eq_spec(&key));
    }
}

/// A key that is found is found in an occupied bucket that holds an equal key.
pub proof fn law_lookup_finds_equal_key<K: PartialEq, V>(t: Table<K, V>, key: K, hash: u64)
    requires
        t.wf(),
    ensures
        t.lookup(key, hash) matches Some(i) ==> {
            &&& t.occupied(i)
            &&& t.key(i).eq_spec(&key)
            &&& t.get(key, hash) == Some(t.buckets[i].unwrap().1)
        },
{
    let s = t.slot(hash);
    lemma_slot_bound(t, hash);
    lemma_find_from(t, s, key, 0);
    if let Some(p) = t.find_from(s, key, 0) {
        assert(t.linked(t.chains[s][p], s, p));
    }
}

/// After an insertion the key is found with its value, every other key is found where it was
/// before, and no other bucket has changed.
pub proof fn law_get_after_insert<K: PartialEq, V>(
    t: Table<K, V>,
    key: K,
    hash: u64,
    value: V,
    other: K,
    other_hash: u64,
)
    requires
        t.wf(),
        t.free.len() > 0,
        eq_is_equivalence::<K>(),
    ensures
        ({
            let u = t.inserted(t.slot(hash), key, value);
            &&& u.wf()
            &&& u.lookup(key, hash) == Some(t.free[0])
            &&& u.get(key, hash) == Some(value)
            &&& !(t.slot(other_hash) == t.slot(hash) && key.eq_spec(&other)) ==> u.lookup(
                other,
                other_hash,
            ) == t.lookup(other, other_hash) && u.get(other, other_hash) == t.get(
                other,
                other_hash,
            )
            &&& u.in_use() == t.in_use() + 1
            &&& forall|j: int|
                0 <= j < t.buckets.len() && j != t.free[0] ==> #[trigger] u.buckets[j]
                    == t.buckets[j]
        }),
{
    let s = t.slot(hash);
    let u = t.inserted(s, key, value);
    lemma_slot_bound(t, hash);
    lemma_slot_bound(t, other_hash);
    lemma_inserted_wf(t, s, key, value);
    assert(u.chains[s][0] == t.free[0]);
    assert(u.key(t.free[0]) == key);
    lemma_find_is(u, s, key, 0);
    if !(t.slot(other_hash) == s && key.eq_spec(&other)) {
        let s2 = t.slot(other_hash);
        let shift: int = if s2 == s {
            1
        } else {
            0
        };
        assert forall|r: int|
            0 <= r < t.chains[s2].len() implies u.buckets[#[trigger] t.chains[s2][r]]
            == t.buckets[t.chains[s2][r]] by {
            assert(t.linked(t.chains[s2][r], s2, r));
        }
        lemma_find_from(t, s2, other, 0);
        match t.find_from(s2, other, 0) {
            Some(p) => {
                assert(u.chains[s2][p + shift] == t.chains[s2][p]);
                assert forall|r: int| 0 <= r < p + shift implies !u.key(
                    #[trigger] u.chains[s2][r],
                ).eq_spec(&other) by {
                    if r >= shift {
                        assert(u.chains[s2][r] == t.chains[s2][r - shift]);
                    }
                }
                lemma_find_is(u, s2, other, p + shift);
                assert(t.linked(t.chains[s2][p], s2, p));
            },
            None => {
                assert forall|r: int| 0 <= r < u.chains[s2].len() implies !u.key(
                    #[trigger] u.chains[s2][r],
                ).eq_spec(&other) by {
                    if r >= shift {
                        assert(u.chains[s2][r] == t.chains[s2][r - shift]);
                    }
                }
                lemma_find_none(u, s2, other);
            },
        }
    }
}

/// After a removal every key that is not equal to the removed one is found where it was before,
/// no other bucket has changed, and the removed key is not found any more where no chain held
/// two equal keys.
pub proof fn law_get_after_remove<K: PartialEq, V>(
    t: Table<K, V>,
    key: K,
    hash: u64,
    other: K,
    other_hash: u64,
)
    requires
        t.wf(),
        t.lookup(key, hash) is Some,
        eq_is_equivalence::<K>(),
    ensures
        ({
            let i = t.lookup(key, hash)->0;
            let u = t.removed(i);
            &&& u.wf()
            &&& t.distinct() ==> u.lookup(key, hash) is None && u.get(key, hash) is None
            &&& !(t.slot(other_hash) == t.slot(hash) && key.eq_spec(&other)) ==> u.lookup(
                other,
                other_hash,
            ) == t.lookup(other, other_hash) && u.get(other, other_hash) == t.get(
                other,
                other_hash,
            )
            &&& u.in_use() == t.in_use() - 1
            &&& u.vacant(i)
            &&& forall|j: int|
                0 <= j < t.buckets.len() && j != i ==> #[trigger] u.buckets[j] == t.buckets[j]
        }),
{
    let s = t.slot(hash);
    lemma_slot_bound(t, hash);
    lemma_slot_bound(t, other_hash);
    lemma_find_from(t, s, key, 0);
    let p = t.find_from(s, key, 0)->0;
    let i = t.chains[s][p];
    let u = t.removed(i);
    assert(t.linked(i, s, p));
    lemma_removed_wf(t, i, s, p);
    if t.distinct() {
        assert forall|r: int| 0 <= r < u.chains[s].len() implies !u.key(
            #[trigger] u.chains[s][r],
        ).eq_spec(&key) by {
            let q = if r < p {
                r
            } else {
                r + 1
            };
            let j = t.chains[s][q];
            assert(u.chains[s][r] == j);
            assert(t.linked(j, s, q));
            if t.key(j).eq_spec(&key) {
                assert(key.eq_spec(&t.key(i)));
                assert(t.key(j).eq_spec(&t.key(i)));
            }
        }
        lemma_find_none(u, s, key);
    }
    if !(t.slot(other_hash) == s && key.eq_spec(&other)) {
        let s2 = t.slot(other_hash);
        if s2 == s && t.key(i).eq_spec(&other) {
            assert(key.eq_spec(&t.key(i)));
            assert(key.eq_spec(&other));
        }
        assert forall|r: int| 0 <= r < t.chains[s2].len() && t.chains[s2][r] == i implies s2 == s
            && r == p by {
            assert(t.linked(i, s2, r));
        }
        lemma_find_from(t, s2, other, 0);
        match t.find_from(s2, other, 0) {
            Some(q) => {
                let q2 = if s2 == s && q > p {
                    q - 1
                } else {
                    q
                };
                assert(u.chains[s2][q2] == t.chains[s2][q]);
                assert(t.linked(t.chains[s2][q], s2, q));
                assert forall|r: int| 0 <= r < q2 implies !u.key(
                    #[trigger] u.chains[s2][r],
                ).eq_spec(&other) by {
                    let r2 = if s2 == s && r >= p {
                        r + 1
                    } else {
                        r
                    };
                    assert(u.chains[s2][r] == t.chains[s2][r2]);
                    assert(t.linked(t.chains[s2][r2], s2, r2));
                }
                lemma_find_is(u, s2, other, q2);
            },
            None => {
                assert forall|r: int| 0 <= r < u.chains[s2].len() implies !u.key(
                    #[trigger] u.chains[s2][r],
                ).eq_spec(&other) by {
                    let r2 = if s2 == s && r >= p {
                        r + 1
                    } else {
                        r
                    };
                    assert(u.chains[s2][r] == t.chains[s2][r2]);
                    assert(t.linked(t.chains[s2][r2], s2, r2));
                }
                lemma_find_none(u, s2, other);
            },
        }
    }
}

/// Removing what has just been inserted gives the table back as it was.
pub proof fn law_remove_undoes_insert<K, V>(t: Table<K, V>, s: int, key: K, value: V)
    requires
        t.wf(),
        0 <= s < t.chains.len(),
        t.free.len() > 0,
    ensures
        t.inserted(s, key, value).removed(t.free[0]) == t,
{
    let u = t.inserted(s, key, value);
    lemma_inserted_wf(t, s, key, value);
    assert(u.linked(t.free[0], s, 0));
    lemma_removed_is(u, t.free[0], s, 0);
    let w = u.removed(t.free[0]);
    assert(u.chains[s].remove(0) =~= t.chains[s]);
    assert(w.chains =~= t.chains);
    assert(w.free =~= t.free);
    assert(w.buckets =~= t.buckets);
}

/// Another value in a bucket is what its key is found with, and changes nothing for others.
pub proof fn law_get_after_replace<K: PartialEq, V>(
    t: Table<K, V>,
    i: int,
    value: V,
    key: K,
    hash: u64,
)
    requires
        t.wf(),
        t.occupied(i),
    ensures
        t.replaced(i, value).lookup(key, hash) == t.lookup(key, hash),
        t.replaced(i, value).get(key, hash) == (if t.lookup(key, hash) == Some(i) {
            Some(value)
        } else {
            t.get(key, hash)
        }),
        t.replaced(i, value).in_use() == t.in_use(),
{
    let u = t.replaced(i, value);
    let s = t.slot(hash);
    lemma_slot_bound(t, hash);
    lemma_replaced_wf(t, i, value);
    assert forall|r: int| 0 <= r < t.chains[s].len() implies u.key(#[trigger] t.chains[s][r])
        == t.key(t.chains[s][r]) by {
        assert(t.linked(t.chains[s][r], s, r));
    }
    lemma_find_from(t, s, key, 0);
    match t.find_from(s, key, 0) {
        Some(p) => {
            assert(t.linked(t.chains[s][p], s, p));
            lemma_find_is(u, s, key, p);
        },
        None => {
            lemma_find_none(u, s, key);
        },
    }
}

/// In an empty table no key is found and no bucket is occupied.
pub proof fn law_empty_holds_nothing<K: PartialEq, V>(
    num_buckets: nat,
    slots: nat,
    key: K,
    hash: u64,
    i: int,
)
    requires
        slots > 0,
    ensures
        Table::<K, V>::empty(num_buckets, slots).lookup(key, hash) is None,
        Table::<K, V>::empty(num_buckets, slots).get(key, hash) is None,
        !Table::<K, V>::empty(num_buckets, slots).occupied(i),
        Table::<K, V>::empty(num_buckets, slots).in_use() == 0,
{
    let t = Table::<K, V>::empty(num_buckets, slots);
    lemma_empty_wf::<K, V>(num_buckets, slots);
    lemma_slot_bound(t, hash);
}

proof fn lemma_free_count<K, V>(buckets: Seq<Option<(K, V)>>, free: Seq<int>)
    requires
        forall|p: int, q: int| 0 <= p < q < free.len() ==> #[trigger] free[p] != #[trigger] free[q],
        forall|p: int|
            0 <= p < free.len() ==> 0 <= #[trigger] free[p] < buckets.len() && buckets[free[p]]
                is None,
        forall|i: int| 0 <= i < buckets.len() && buckets[i] is None ==> #[trigger] free.contains(i),
    ensures
        occupied_count(buckets) + free.len() == buckets.len(),
    decreases buckets.len(),
{
    if buckets.len() == 0 {
        if free.len() > 0 {
            assert(0 <= free[0] < buckets.len());
        }
    } else {
        let last = buckets.len() - 1;
        let rest = buckets.drop_last();
        if buckets[last] is Some {
            assert forall|i: int|
                0 <= i < rest.len() && rest[i] is None implies #[trigger] free.contains(i) by {
                assert(buckets[i] is None);
            }
            lemma_free_count(rest, free);
        } else {
            assert(free.contains(last));
            let p = choose|p: int| 0 <= p < free.len() && free[p] == last;
            let fewer = free.remove(p);
            assert forall|a: int, b: int| 0 <= a < b < fewer.len() implies #[trigger] fewer[a]
                != #[trigger] fewer[b] by {
                let a2 = if a < p {
                    a
                } else {
                    a + 1
                };
                let b2 = if b < p {
                    b
                } else {
                    b + 1
                };
                assert(free[a2] != free[b2]);
            }
            assert forall|a: int| 0 <= a < fewer.len() implies 0 <= #[trigger] fewer[a] < rest.len()
                && rest[fewer[a]] is None by {
                let a2 = if a < p {
                    a
                } else {
                    a + 1
                };
                assert(fewer[a] == free[a2]);
                if a2 < p {
                    assert(free[a2] != free[p]);
                } else {
                    assert(free[p] != free[a2]);
                }
            }
            assert forall|i: int|
                0 <= i < rest.len() && rest[i] is None implies #[trigger] fewer.contains(i) by {
                assert(buckets[i] is None);
                assert(free.contains(i));
                let q = choose|q: int| 0 <= q < free.len() && free[q] == i;
                let q2 = if q < p {
                    q
                } else {
                    q - 1
                };
                assert(fewer[q2] == i);
            }
            lemma_free_count(rest, fewer);
        }
    }
}

/// The buckets in use and the free ones are all the buckets there are. So an insertion fails if
/// and only if every bucket is in use.
pub proof fn law_capacity<K, V>(t: Table<K, V>)
    requires
        t.wf(),
    ensures
        t.in_use() + t.free.len() == t.buckets.len(),
        t.free.len() == 0 <==> t.in_use() == t.buckets.len(),
        t.free.len() == 0 <==> (forall|i: int| 0 <= i < t.buckets.len() ==> t.occupied(i)),
{
    assert forall|p: int, q: int| 0 <= p < q < t.free.len() implies #[trigger] t.free[p]
        != #[trigger] t.free[q] by {
        assert(t.listed(t.free[p], p));
        assert(t.listed(t.free[q], q));
    }
    assert forall|p: int| 0 <= p < t.free.len() implies 0 <= #[trigger] t.free[p] < t.buckets.len()
        && t.buckets[t.free[p]] is None by {
        assert(t.listed(t.free[p], p));
    }
    assert forall|i: int|
        0 <= i < t.buckets.len() && t.buckets[i] is None implies #[trigger] t.free.contains(i) by {
        assert(t.vacant(i));
        let p = choose|p: int| t.listed(i, p);
        assert(t.free[p] == i);
    }
    lemma_free_count(t.buckets, t.free);
    if t.free.len() == 0 {
        assert forall|i: int| 0 <= i < t.buckets.len() implies t.occupied(i) by {
            if t.vacant(i) {
                let p = choose|p: int| t.listed(i, p);
                assert(t.listed(i, p));
            }
        }
    } else {
        assert(t.listed(t.free[0], 0));
        assert(!t.occupied(t.free[0]));
    }
}

/// An empty table holds no two equal keys and has every key in its place.
pub proof fn law_empty_is_consistent<K: PartialEq, V>(
    num_buckets: nat,
    slots: nat,
    hash: spec_fn(K) -> u64,
)
    ensures
        Table::<K, V>::empty(num_buckets, slots).distinct(),
        Table::<K, V>::empty(num_buckets, slots).placed_by(hash),
{
}

/// Inserting a key that is not found keeps the keys of each chain distinct, and every key in its
/// place where the key's own hash was given.
pub proof fn law_insert_is_consistent<K: PartialEq, V>(
    t: Table<K, V>,
    key: K,
    given: u64,
    value: V,
    hash: spec_fn(K) -> u64,
)
    requires
        t.wf(),
        t.free.len() > 0,
        t.lookup(key, given) is None,
        eq_is_equivalence::<K>(),
    ensures
        t.distinct() ==> t.inserted(t.slot(given), key, value).distinct(),
        t.placed_by(hash) && given == hash(key) ==> t.inserted(
            t.slot(given),
            key,
            value,
        ).placed_by(hash),
{
    let s = t.slot(given);
    let u = t.inserted(s, key, value);
    let f = t.free[0];
    lemma_slot_bound(t, given);
    lemma_inserted_wf(t, s, key, value);
    lemma_find_from(t, s, key, 0);
    assert forall|i: int, s2: int, p: int| #[trigger] u.linked(i, s2, p) implies (if s2 == s && p
        == 0 {
        i == f && u.key(i) == key
    } else {
        let p2 = if s2 == s {
            p - 1
        } else {
            p
        };
        t.linked(i, s2, p2) && u.key(i) == t.key(i)
    }) by {
        if !(s2 == s && p == 0) {
            let p2 = if s2 == s {
                p - 1
            } else {
                p
            };
            assert(t.linked(i, s2, p2));
        }
    }
    if t.distinct() {
        assert forall|i: int, j: int, s2: int, p: int, q: int| #[trigger]
            u.linked(i, s2, p) && #[trigger] u.linked(j, s2, q) && p != q implies !u.key(i).eq_spec(
            &u.key(j),
        ) by {
            if s2 == s && p == 0 {
                assert(t.linked(j, s, q - 1));
                assert(!t.key(t.chains[s][q - 1]).eq_spec(&key));
            } else if s2 == s && q == 0 {
                assert(t.linked(i, s, p - 1));
                assert(!t.key(t.chains[s][p - 1]).eq_spec(&key));
            }
        }
    }
}

/// A removal keeps the keys of each chain distinct and every key in its place.
pub proof fn law_remove_is_consistent<K: PartialEq, V>(
    t: Table<K, V>,
    i: int,
    hash: spec_fn(K) -> u64,
)
    requires
        t.wf(),
        t.occupied(i),
    ensures
        t.distinct() ==> t.removed(i).distinct(),
        t.placed_by(hash) ==> t.removed(i).placed_by(hash),
{
    let u = t.removed(i);
    let (s, p) = choose|s: int, p: int| t.linked(i, s, p);
    lemma_removed_wf(t, i, s, p);
    assert forall|j: int, s2: int, q: int| #[trigger] u.linked(j, s2, q) implies t.linked(
        j,
        s2,
        if s2 == s && q >= p {
            q + 1
        } else {
            q
        },
    ) && u.key(j) == t.key(j) by {
        let q2 = if s2 == s && q >= p {
            q + 1
        } else {
            q
        };
        assert(t.linked(j, s2, q2));
        if j == i {
            assert(q2 == p);
        }
    }
}

/// Another value keeps the keys of each chain distinct and every key in its place.
pub proof fn law_replace_is_consistent<K: PartialEq, V>(
    t: Table<K, V>,
    i: int,
    value: V,
    hash: spec_fn(K) -> u64,
)
    requires
        t.wf(),
        t.occupied(i),
    ensures
        t.distinct() ==> t.replaced(i, value).distinct(),
        t.placed_by(hash) ==> t.replaced(i, value).placed_by(hash),
{
    let u = t.replaced(i, value);
    assert forall|j: int, s: int, p: int| #[trigger] u.linked(j, s, p) implies t.linked(j, s, p)
        && u.key(j) == t.key(j) by {
        assert(t.linked(j, s, p));
    }
}

/// What an iteration over the buckets meets is what look-ups find: every entry is found by its
/// key and the key's hash, in its own bucket.
pub proof fn law_every_entry_is_found<K: PartialEq, V>(
    t: Table<K, V>,
    hash: spec_fn(K) -> u64,
    i: int,
    key: K,
)
    requires
        t.wf(),
        t.distinct(),
        t.placed_by(hash),
        eq_is_equivalence::<K>(),
        respects_eq(hash),
        t.occupied(i),
        t.key(i).eq_spec(&key),
    ensures
        t.lookup(key, hash(key)) == Some(i),
        t.get(key, hash(key)) == Some(t.buckets[i].unwrap().1),
{
    let (s, p) = choose|s: int, p: int| t.linked(i, s, p);
    assert(t.linked(i, s, p));
    assert(s == t.slot(hash(key)));
    assert forall|r: int| 0 <= r < p implies !t.key(#[trigger] t.chains[s][r]).eq_spec(&key) by {
        let j = t.chains[s][r];
        assert(t.linked(j, s, r));
        if t.key(j).eq_spec(&key) {
            assert(key.eq_spec(&t.key(i)));
            assert(t.key(j).eq_spec(&t.key(i)));
        }
    }
    lemma_find_is(t, s, key, p);
}

/// Rebuilding the dictionary leaves every bucket as it is, puts every key in its place, and a key
/// is then found by its hash if and only if some bucket holds an equal one.
pub proof fn law_shuffle_places_every_key<K: PartialEq, V>(
    t: Table<K, V>,
    hash: spec_fn(K) -> u64,
    slots: nat,
    key: K,
)
    requires
        slots > 0,
        eq_is_equivalence::<K>(),
        respects_eq(hash),
    ensures
        ({
            let u = t.rehashed(hash, slots, t.buckets.len());
            &&& u.wf()
            &&& u.buckets == t.buckets
            &&& u.in_use() == t.in_use()
            &&& u.placed_by(hash)
            &&& u.lookup(key, hash(key)) is Some <==> exists|i: int|
                t.occupied(i) && #[trigger] t.key(i).eq_spec(&key)
        }),
{
    let n = t.buckets.len();
    let u = t.rehashed(hash, slots, n);
    lemma_rehashed_wf(t, hash, slots);
    assert forall|i: int, s: int, p: int| #[trigger] u.linked(i, s, p) implies s == u.slot(
        hash(u.key(i)),
    ) by {
        lemma_chain_of(t.buckets, hash, slots, s, n);
    }
    let s = u.slot(hash(key));
    lemma_find_from(u, s, key, 0);
    lemma_slot_bound(u, hash(key));
    if let Some(p) = u.find_from(s, key, 0) {
        let i = u.chains[s][p];
        assert(u.linked(i, s, p));
        assert(u.occupied(i));
        assert(t.occupied(i) && t.key(i).eq_spec(&key));
    }
    if exists|i: int| t.occupied(i) && #[trigger] t.key(i).eq_spec(&key) {
        let i = choose|i: int| t.occupied(i) && #[trigger] t.key(i).eq_spec(&key);
        assert(u.occupied(i));
        let (s2, p) = choose|s2: int, p: int| u.linked(i, s2, p);
        assert(u.linked(i, s2, p));
        assert(s2 == s);
        if u.find_from(s, key, 0) is None {
            assert(!u.key(u.chains[s][p]).eq_spec(&key));
        }
    }
}

/// Rebuilding the dictionary of a table whose keys are distinct and in their places changes no
/// look-up by a key's own hash, and keeps them so.
pub proof fn law_shuffle_keeps_lookups<K: PartialEq, V>(
    t: Table<K, V>,
    hash: spec_fn(K) -> u64,
    slots: nat,
    key: K,
)
    requires
        t.wf(),
        t.distinct(),
        t.placed_by(hash),
        slots > 0,
        eq_is_equivalence::<K>(),
        respects_eq(hash),
    ensures
        ({
            let u = t.rehashed(hash, slots, t.buckets.len());
            &&& u.distinct()
            &&& u.placed_by(hash)
            &&& u.lookup(key, hash(key)) == t.lookup(key, hash(key))
            &&& u.get(key, hash(key)) == t.get(key, hash(key))
        }),
{
    let u = t.rehashed(hash, slots, t.buckets.len());
    law_shuffle_places_every_key(t, hash, slots, key);
    assert forall|i: int, j: int, s: int, p: int, q: int| #[trigger]
        u.linked(i, s, p) && #[trigger] u.linked(j, s, q) && p != q implies !u.key(i).eq_spec(
        &u.key(j),
    ) by {
        assert(u.occupied(i) && u.occupied(j));
        assert(t.occupied(i) && t.occupied(j));
        if i == j {
            assert(u.linked(i, s, q));
        }
        let (a, b) = choose|a: int, b: int| t.linked(i, a, b);
        let (c, d) = choose|c: int, d: int| t.linked(j, c, d);
        assert(t.linked(i, a, b) && t.linked(j, c, d));
        if u.key(i).eq_spec(&u.key(j)) {
            assert(t.key(i).eq_spec(&t.key(j)));
            assert(hash(t.key(i)) == hash(t.key(j)));
            assert(a == c);
            assert(b != d);
        }
    }
    law_lookup_finds_equal_key(t, key, hash(key));
    law_lookup_finds_equal_key(u, key, hash(key));
    if let Some(i) = t.lookup(key, hash(key)) {
        assert(u.occupied(i));
        law_every_entry_is_found(u, hash, i, key);
    } else if let Some(i) = u.lookup(key, hash(key)) {
        assert(t.occupied(i));
        law_every_entry_is_found(t, hash, i, key);
    }
}

/// Rebuilding the dictionary once more changes nothing.
pub proof fn law_shuffle_is_idempotent<K, V>(t: Table<K, V>, hash: spec_fn(K) -> u64, slots: nat)
    ensures
        t.rehashed(hash, slots, t.buckets.len()).rehashed(hash, slots, t.buckets.len())
            == t.rehashed(hash, slots, t.buckets.len()),
{
}

/// The buckets whose key hashes to slot `s`.
pub open spec fn hashes_to<K, V>(
    t: Table<K, V>,
    hash: spec_fn(K) -> u64,
    slots: nat,
    s: int,
) -> spec_fn(int) -> bool {
    |i: int| t.occupied(i) && slot_of_hash(hash(t.buckets[i].unwrap().0), slots) == s
}

/// The empty buckets.
pub open spec fn is_vacant<K, V>(t: Table<K, V>) -> spec_fn(int) -> bool {
    |i: int| t.vacant(i)
}

proof fn lemma_walk(nexts: Seq<u32>, chain: Seq<int>, p: int, limit: nat)
    requires
        0 <= p <= chain.len(),
        chain.len() - p <= limit,
        forall|q: int|
            0 <= q < chain.len() ==> 0 <= #[trigger] chain[q] < INVALID_POS && nexts[chain[q]]
                == link_at(chain, q + 1),
    ensures
        walk(nexts, link_at(chain, p), limit) == chain.subrange(p, chain.len() as int),
    decreases limit,
{
    if p < chain.len() {
        lemma_walk(nexts, chain, p + 1, (limit - 1) as nat);
        assert(chain.subrange(p, chain.len() as int) =~= seq![chain[p]] + chain.subrange(
            p + 1,
            chain.len() as int,
        ));
    } else {
        assert(chain.subrange(p, chain.len() as int) =~= Seq::empty());
    }
}

/// Walking the links in memory from a dictionary entry meets the buckets of its chain, and from
/// the free head the free buckets, in their order.
pub proof fn law_links_run_through_the_chains<K, V>(
    t: Table<K, V>,
    links: Links,
    s: int,
    limit: nat,
)
    requires
        t.sound(),
        t.buckets.len() <= u32::MAX,
        links.represent(t),
    ensures
        0 <= s < t.chains.len() && t.chains[s].len() <= limit ==> walk(
            links.nexts,
            links.heads[s],
            limit,
        ) == t.chains[s],
        t.free.len() <= limit ==> walk(links.nexts, links.free_head, limit) == t.free,
{
    if 0 <= s < t.chains.len() && t.chains[s].len() <= limit {
        let c = t.chains[s];
        assert forall|q: int| 0 <= q < c.len() implies 0 <= #[trigger] c[q] < INVALID_POS
            && links.nexts[c[q]] == link_at(c, q + 1) by {
            assert(t.linked(c[q], s, q));
            assert(t.occupied(c[q]));
        }
        lemma_walk(links.nexts, c, 0, limit);
        assert(c.subrange(0, c.len() as int) =~= c);
    }
    if t.free.len() <= limit {
        let c = t.free;
        assert forall|q: int| 0 <= q < c.len() implies 0 <= #[trigger] c[q] < INVALID_POS
            && links.nexts[c[q]] == link_at(c, q + 1) by {
            assert(t.listed(c[q], q));
            assert(t.vacant(c[q]));
        }
        lemma_walk(links.nexts, c, 0, limit);
        assert(c.subrange(0, c.len() as int) =~= c);
    }
}

/// Rebuilt over the first `m` buckets, chains and free list meet each of these exactly once: an
/// occupied one in the chain of the slot that its key hashes to, an empty one in the free list.
/// They meet no other.
pub proof fn law_rebuild_meets_each_bucket_once<K, V>(
    t: Table<K, V>,
    hash: spec_fn(K) -> u64,
    slots: nat,
    m: nat,
    i: int,
)
    requires
        m <= t.buckets.len(),
        slots == 0 ==> forall|j: int| 0 <= j < m ==> #[trigger] t.vacant(j),
    ensures
        ({
            let u = t.rehashed(hash, slots, m);
            &&& u.sound()
            &&& 0 <= i < m && t.occupied(i) ==> exists|p: int| #[trigger]
                u.linked(i, slot_of_hash(hash(t.buckets[i].unwrap().0), slots), p)
            &&& 0 <= i < m && t.vacant(i) ==> exists|p: int| #[trigger] u.listed(i, p)
            &&& !(0 <= i < m) ==> (forall|s: int, p: int| !#[trigger] u.linked(i, s, p)) && (
            forall|p: int| !#[trigger] u.listed(i, p))
        }),
{
    let u = t.rehashed(hash, slots, m);
    lemma_rehashed_sound(t, hash, slots, m);
    if 0 <= i < m && t.occupied(i) {
        assert(!t.vacant(i));
        let h = hash(t.buckets[i].unwrap().0);
        let s = slot_of_hash(h, slots);
        lemma_slot_bound(u, h);
        lemma_chain_of(t.buckets, hash, slots, s, m);
        assert(u.chains[s].contains(i));
        let p = choose|p: int| 0 <= p < u.chains[s].len() && u.chains[s][p] == i;
        assert(u.linked(i, s, p));
    }
    if 0 <= i < m && t.vacant(i) {
        lemma_free_of(t.buckets, m);
        assert(u.free.contains(i));
        let p = choose|p: int| 0 <= p < u.free.len() && u.free[p] == i;
        assert(u.listed(i, p));
    }
    assert forall|s: int, p: int| #[trigger] u.linked(i, s, p) implies 0 <= i < m by {
        assert(u.occupied(i));
    }
    assert forall|p: int| #[trigger] u.listed(i, p) implies 0 <= i < m by {
        assert(u.vacant(i));
    }
}

/// In a sequence that falls from each item to the next, the item behind the `p`-th one, or the
/// first, is the greatest of those that are left.
proof fn lemma_falling(chain: Seq<int>, pred: spec_fn(int) -> bool, p: int, m: int)
    requires
        -1 <= p < chain.len(),
        m <= u32::MAX,
        p == -1 || chain[p] == m,
        forall|q: int, r: int|
            0 <= q < r < chain.len() ==> #[trigger] chain[q] > #[trigger] chain[r],
        forall|q: int|
            0 <= q < chain.len() ==> {
                &&& 0 <= #[trigger] chain[q]
                &&& pred(chain[q])
                &&& p == -1 ==> chain[q] < m
            },
        forall|i: int| 0 <= i < m && #[trigger] pred(i) ==> chain.contains(i),
    ensures
        leads_to_greatest(link_at(chain, p + 1), pred, m),
{
    let link = link_at(chain, p + 1);
    if p + 1 < chain.len() {
        assert(pred(chain[p + 1]));
        if p >= 0 {
            assert(chain[p] > chain[p + 1]);
        }
        assert forall|i: int| link < i < m implies !#[trigger] pred(i) by {
            if pred(i) {
                assert(chain.contains(i));
                let q = choose|q: int| 0 <= q < chain.len() && chain[q] == i;
                if q > p + 1 {
                    assert(chain[p + 1] > chain[q]);
                } else if q < p {
                    assert(chain[q] > chain[p]);
                }
            }
        }
    } else {
        assert forall|i: int| 0 <= i < m implies !#[trigger] pred(i) by {
            if pred(i) {
                assert(chain.contains(i));
                let q = choose|q: int| 0 <= q < chain.len() && chain[q] == i;
                if p >= 0 && q < p {
                    assert(chain[q] > chain[p]);
                }
            }
        }
    }
}

/// After a rebuild over the first `m` buckets each dictionary entry links to the greatest of them
/// whose key hashes to its slot, and each of these to the greatest before it; the free head links
/// to the greatest empty one, and each empty one to the greatest before it.
pub proof fn law_rebuilt_links<K, V>(
    t: Table<K, V>,
    hash: spec_fn(K) -> u64,
    slots: nat,
    m: nat,
    links: Links,
    s: int,
    i: int,
)
    requires
        m <= t.buckets.len() <= u32::MAX,
        slots == 0 ==> forall|j: int| 0 <= j < m ==> #[trigger] t.vacant(j),
        links.represent(t.rehashed(hash, slots, m)),
    ensures
        0 <= s < slots ==> leads_to_greatest(
            links.heads[s],
            hashes_to(t, hash, slots, s),
            m as int,
        ),
        0 <= i < m && t.occupied(i) ==> leads_to_greatest(
            links.nexts[i],
            hashes_to(t, hash, slots, slot_of_hash(hash(t.buckets[i].unwrap().0), slots)),
            i,
        ),
        leads_to_greatest(links.free_head, is_vacant(t), m as int),
        0 <= i < m && t.vacant(i) ==> leads_to_greatest(links.nexts[i], is_vacant(t), i),
{
    let u = t.rehashed(hash, slots, m);
    lemma_rehashed_sound(t, hash, slots, m);
    law_rebuild_meets_each_bucket_once(t, hash, slots, m, i);
    if 0 <= s < slots {
        lemma_chain_of(t.buckets, hash, slots, s, m);
        lemma_falling(u.chains[s], hashes_to(t, hash, slots, s), -1, m as int);
    }
    if 0 <= i < m && t.occupied(i) {
        let h = hash(t.buckets[i].unwrap().0);
        let s2 = slot_of_hash(h, slots);
        let p = choose|p: int| #[trigger] u.linked(i, s2, p);
        lemma_chain_of(t.buckets, hash, slots, s2, m);
        lemma_falling(u.chains[s2], hashes_to(t, hash, slots, s2), p, i);
    }
    lemma_free_of(t.buckets, m);
    lemma_falling(u.free, is_vacant(t), -1, m as int);
    if 0 <= i < m && t.vacant(i) {
        let p = choose|p: int| #[trigger] u.listed(i, p);
        lemma_falling(u.free, is_vacant(t), p, i);
    }
}

/// Among the first `m` buckets of two tables the same ones are occupied, by the same keys.
pub open spec fn same_keys_below<K, V>(t: Table<K, V>, other: Table<K, V>, m: nat) -> bool {
    forall|j: int|
        #![trigger t.buckets[j]]
        #![trigger other.buckets[j]]
        0 <= j < m ==> {
            &&& t.buckets[j] is Some <==> other.buckets[j] is Some
            &&& t.buckets[j] is Some ==> t.buckets[j].unwrap().0 == other.buckets[j].unwrap().0
        }
}

proof fn lemma_chain_of_keys<K, V>(
    t: Table<K, V>,
    other: Table<K, V>,
    hash: spec_fn(K) -> u64,
    slots: nat,
    s: int,
    m: nat,
)
    requires
        same_keys_below(t, other, m),
    ensures
        chain_of(t.buckets, hash, slots, s, m) == chain_of(other.buckets, hash, slots, s, m),
    decreases m,
{
    if m > 0 {
        lemma_chain_of_keys(t, other, hash, slots, s, (m - 1) as nat);
    }
}

proof fn lemma_free_of_keys<K, V>(t: Table<K, V>, other: Table<K, V>, m: nat)
    requires
        same_keys_below(t, other, m),
    ensures
        free_of(t.buckets, m) == free_of(other.buckets, m),
    decreases m,
{
    if m > 0 {
        lemma_free_of_keys(t, other, (m - 1) as nat);
    }
}

/// What a rebuild makes depends neither on the chains that were there nor on the values: two
/// tables whose first `m` buckets hold the same keys get the same chains and the same free list,
/// and the same links among these buckets.
pub proof fn law_rebuild_ignores_old_links<K, V>(
    t: Table<K, V>,
    other: Table<K, V>,
    hash: spec_fn(K) -> u64,
    slots: nat,
    m: nat,
    links: Links,
    other_links: Links,
)
    requires
        same_keys_below(t, other, m),
        m <= t.buckets.len(),
        m <= other.buckets.len(),
        slots == 0 ==> forall|j: int| 0 <= j < m ==> #[trigger] t.vacant(j),
        links.represent(t.rehashed(hash, slots, m)),
        other_links.represent(other.rehashed(hash, slots, m)),
    ensures
        t.rehashed(hash, slots, m).chains == other.rehashed(hash, slots, m).chains,
        t.rehashed(hash, slots, m).free == other.rehashed(hash, slots, m).free,
        links.heads == other_links.heads,
        links.free_head == other_links.free_head,
        forall|i: int| 0 <= i < m ==> #[trigger] links.nexts[i] == other_links.nexts[i],
{
    let u = t.rehashed(hash, slots, m);
    let w = other.rehashed(hash, slots, m);
    assert forall|s: int| 0 <= s < slots implies #[trigger] u.chains[s] == w.chains[s] by {
        lemma_chain_of_keys(t, other, hash, slots, s, m);
    }
    assert(u.chains =~= w.chains);
    lemma_free_of_keys(t, other, m);
    assert(links.heads =~= other_links.heads);
    assert forall|i: int| 0 <= i < m implies #[trigger] links.nexts[i] == other_links.nexts[i] by {
        law_rebuild_meets_each_bucket_once(t, hash, slots, m, i);
        if t.occupied(i) {
            let s = slot_of_hash(hash(t.buckets[i].unwrap().0), slots);
            let p = choose|p: int| #[trigger] u.linked(i, s, p);
            assert(u.linked(i, s, p) && w.linked(i, s, p));
        } else {
            assert(t.vacant(i));
            let p = choose|p: int| #[trigger] u.listed(i, p);
            assert(u.listed(i, p) && w.listed(i, p));
        }
    }
}

/// The default hasher gives equal keys equal hashes, and the comparison of its keys is an
/// equivalence.
pub proof fn law_fx_respects_eq(hasher: FxBuildHasher)
    ensures
        respects_eq(hash_fn::<u32, FxBuildHasher>(hasher)),
        respects_eq(hash_fn::<u64, FxBuildHasher>(hasher)),
        respects_eq(hash_fn::<u128, FxBuildHasher>(hasher)),
        eq_is_equivalence::<u32>(),
        eq_is_equivalence::<u64>(),
        eq_is_equivalence::<u128>(),
{
}

/// A bucket is occupied where it exists and holds an entry, and vacant where it exists and holds
/// none.
pub proof fn law_occupied_or_vacant<K, V>(t: Table<K, V>, i: int)
    ensures
        t.occupied(i) <==> 0 <= i < t.buckets.len() && t.buckets[i] is Some,
        t.vacant(i) <==> 0 <= i < t.buckets.len() && t.buckets[i] is None,
{
}

/// A hash selects the dictionary entry whose index is its remainder by the size of the dictionary.
pub proof fn law_slot_is_the_remainder<K, V>(t: Table<K, V>, hash: u64)
    requires
        t.chains.len() > 0,
    ensures
        t.slot(hash) == hash as int % t.chains.len() as int,
        0 <= t.slot(hash) < t.chains.len(),
{
    lemma_slot_bound(t, hash);
}

/// A look-up finds the first bucket with an equal key in the chain at the remainder of the hash by
/// the size of the dictionary, and finds nothing where that chain holds no equal key.
pub proof fn law_lookup_finds_the_first_equal_key<K: PartialEq, V>(
    t: Table<K, V>,
    key: K,
    hash: u64,
)
    requires
        t.wf(),
    ensures
        ({
            let chain = t.chains[hash as int % t.chains.len() as int];
            match t.lookup(key, hash) {
                Some(i) => {
                    &&& t.buckets[i] is Some
                    &&& t.get(key, hash) == Some(t.buckets[i].unwrap().1)
                    &&& exists|p: int|
                        {
                            &&& 0 <= p < chain.len()
                            &&& #[trigger] chain[p] == i
                            &&& t.buckets[i].unwrap().0.eq_spec(&key)
                            &&& forall|q: int|
                                0 <= q < p ==> !t.buckets[#[trigger] chain[q]].unwrap().0.eq_spec(
                                    &key,
                                )
                        }
                },
                None => {
                    &&& t.get(key, hash) is None
                    &&& forall|p: int|
                        0 <= p < chain.len() ==> !t.buckets[#[trigger] chain[p]].unwrap().0.eq_spec(
                            &key,
                        )
                },
            }
        }),
{
    let s = t.slot(hash);
    let chain = t.chains[s];
    law_slot_is_the_remainder(t, hash);
    lemma_find_from(t, s, key, 0);
    match t.find_from(s, key, 0) {
        Some(p) => {
            assert(t.linked(chain[p], s, p));
            assert(t.occupied(chain[p]));
            assert forall|q: int|
                0 <= q < p implies !t.buckets[#[trigger] chain[q]].unwrap().0.eq_spec(&key) by {
                assert(!t.key(chain[q]).eq_spec(&key));
            }
        },
        None => {
            assert forall|p: int|
                0 <= p < chain.len() implies !t.buckets[#[trigger] chain[p]].unwrap().0.eq_spec(
                &key,
            ) by {
                assert(!t.key(chain[p]).eq_spec(&key));
            }
        },
    }
}

/// An empty table has no entry in any bucket and no bucket in any chain, and its buckets are free
/// in ascending order.
pub proof fn law_empty_is_all_free<K, V>(num_buckets: nat, slots: nat)
    ensures
        ({
            let t = Table::<K, V>::empty(num_buckets, slots);
            &&& t.buckets.len() == num_buckets
            &&& t.chains.len() == slots
            &&& t.free.len() == num_buckets
            &&& forall|i: int| 0 <= i < num_buckets ==> #[trigger] t.buckets[i] is None
            &&& forall|s: int| 0 <= s < slots ==> (#[trigger] t.chains[s]).len() == 0
            &&& forall|i: int| 0 <= i < num_buckets ==> #[trigger] t.free[i] == i
        }),
{
}

/// An insertion puts the entry into the first free bucket, which leaves the free list and becomes
/// the first of its chain. Nothing else changes.
pub proof fn law_insert_takes_the_first_free_bucket<K, V>(
    t: Table<K, V>,
    s: int,
    key: K,
    value: V,
)
    requires
        t.wf(),
        0 <= s < t.chains.len(),
        t.free.len() > 0,
    ensures
        ({
            let u = t.inserted(s, key, value);
            let i = t.free[0];
            &&& u.buckets.len() == t.buckets.len()
            &&& u.buckets[i] == Some((key, value))
            &&& forall|j: int|
                0 <= j < t.buckets.len() && j != i ==> #[trigger] u.buckets[j] == t.buckets[j]
            &&& u.chains.len() == t.chains.len()
            &&& u.chains[s] == seq![i] + t.chains[s]
            &&& forall|r: int|
                0 <= r < t.chains.len() && r != s ==> #[trigger] u.chains[r] == t.chains[r]
            &&& t.free == seq![i] + u.free
        }),
{
    lemma_inserted_wf(t, s, key, value);
    assert(t.free =~= seq![t.free[0]] + t.inserted(s, key, value).free);
}

/// A removal empties the bucket, which leaves its chain and becomes the first of the free list.
/// Nothing else changes.
pub proof fn law_remove_frees_the_bucket<K, V>(t: Table<K, V>, s: int, p: int)
    requires
        t.wf(),
        0 <= s < t.chains.len(),
        0 <= p < t.chains[s].len(),
    ensures
        ({
            let i = t.chains[s][p];
            let u = t.removed(i);
            &&& u.buckets.len() == t.buckets.len()
            &&& u.buckets[i] is None
            &&& forall|j: int|
                0 <= j < t.buckets.len() && j != i ==> #[trigger] u.buckets[j] == t.buckets[j]
            &&& u.chains.len() == t.chains.len()
            &&& u.chains[s] == t.chains[s].subrange(0, p) + t.chains[s].subrange(
                p + 1,
                t.chains[s].len() as int,
            )
            &&& forall|r: int|
                0 <= r < t.chains.len() && r != s ==> #[trigger] u.chains[r] == t.chains[r]
            &&& u.free == seq![i] + t.free
        }),
{
    let i = t.chains[s][p];
    assert(t.linked(i, s, p));
    assert(t.occupied(i));
    lemma_removed_is(t, i, s, p);
    assert(t.removed(i).chains[s] =~= t.chains[s].subrange(0, p) + t.chains[s].subrange(
        p + 1,
        t.chains[s].len() as int,
    ));
}

/// Another value in a bucket stands there with the key that was there. Nothing else changes.
pub proof fn law_replace_keeps_the_key<K, V>(t: Table<K, V>, i: int, value: V)
    requires
        0 <= i < t.buckets.len(),
        t.buckets[i] is Some,
    ensures
        ({
            let u = t.replaced(i, value);
            &&& u.buckets.len() == t.buckets.len()
            &&& u.buckets[i] == Some((t.buckets[i].unwrap().0, value))
            &&& forall|j: int|
                0 <= j < t.buckets.len() && j != i ==> #[trigger] u.buckets[j] == t.buckets[j]
            &&& u.chains == t.chains
            &&& u.free == t.free
        }),
{
}

/// Rebuilt over the first `m` buckets under so many dictionary entries, the chain of each entry
/// runs downwards through exactly those of them whose key has a hash with the entry's index as
/// remainder, and the free list downwards through exactly the empty ones. No bucket changes.
pub proof fn law_rebuilt_chains<K, V>(
    t: Table<K, V>,
    hash: spec_fn(K) -> u64,
    slots: nat,
    m: nat,
    s: int,
    i: int,
)
    requires
        m <= t.buckets.len(),
        0 <= s < slots,
    ensures
        ({
            let u = t.rehashed(hash, slots, m);
            &&& u.buckets == t.buckets
            &&& u.chains.len() == slots
            &&& u.chains[s].contains(i) <==> 0 <= i < m && t.buckets[i] is Some && hash(
                t.buckets[i].unwrap().0,
            ) as int % slots as int == s
            &&& forall|p: int, q: int|
                0 <= p < q < u.chains[s].len() ==> #[trigger] u.chains[s][p]
                    > #[trigger] u.chains[s][q]
            &&& u.free.contains(i) <==> 0 <= i < m && t.buckets[i] is None
            &&& forall|p: int, q: int|
                0 <= p < q < u.free.len() ==> #[trigger] u.free[p] > #[trigger] u.free[q]
        }),
{
    lemma_chain_of(t.buckets, hash, slots, s, m);
    lemma_free_of(t.buckets, m);
    let u = t.rehashed(hash, slots, m);
    assert(u.chains[s] == chain_of(t.buckets, hash, slots, s, m));
}

/// After a rebuild every entry hangs in the chain that the hash which the hasher itself computes
/// for its key selects. Where the keys were distinct and hung under these hashes before, a look-up
/// of a key under its hash finds after the rebuild what it found before: the entry of the bucket
/// with an equal key.
pub proof fn law_shuffle_follows_the_hasher<K: PartialEq, V, S: KeyHasher<K>>(
    t: Table<K, V>,
    hasher: S,
    slots: nat,
    key: K,
    i: int,
)
    requires
        t.wf(),
        slots > 0,
        eq_is_equivalence::<K>(),
        forall|a: K, b: K| #[trigger]
            a.eq_spec(&b) ==> hasher.spec_hash(&a) == hasher.spec_hash(&b),
        forall|j: int, k: int|
            #![trigger t.buckets[j], t.buckets[k]]
            0 <= j < t.buckets.len() && 0 <= k < t.buckets.len() && j != k && t.buckets[j] is Some
                && t.buckets[k] is Some ==> !t.buckets[j].unwrap().0.eq_spec(
                &t.buckets[k].unwrap().0,
            ),
        forall|s: int, p: int|
            0 <= s < t.chains.len() && 0 <= p < t.chains[s].len() ==> hasher.spec_hash(
                &t.buckets[#[trigger] t.chains[s][p]].unwrap().0,
            ) as int % t.chains.len() as int == s,
    ensures
        ({
            let u = t.rehashed(hash_fn(hasher), slots, t.buckets.len());
            let hash = hasher.spec_hash(&key);
            &&& u.buckets == t.buckets
            &&& u.chains.len() == slots
            &&& 0 <= i < t.buckets.len() && t.buckets[i] is Some ==> u.chains[hasher.spec_hash(
                &t.buckets[i].unwrap().0,
            ) as int % slots as int].contains(i)
            &&& u.lookup(key, hash) == t.lookup(key, hash)
            &&& u.get(key, hash) == t.get(key, hash)
            &&& 0 <= i < t.buckets.len() && t.buckets[i] is Some && t.buckets[i].unwrap().0.eq_spec(
                &key,
            ) ==> u.lookup(key, hash) == Some(i) && u.get(key, hash) == Some(
                t.buckets[i].unwrap().1,
            )
        }),
{
    let f = hash_fn(hasher);
    let n = t.buckets.len();
    assert forall|k: K| #[trigger] f(k) == hasher.spec_hash(&k) by {
        law_hash_fn_is_the_hasher(hasher, k);
    }
    assert(respects_eq(f));
    assert forall|a: int, b: int, s: int, p: int, q: int| #[trigger]
        t.linked(a, s, p) && #[trigger] t.linked(b, s, q) && p != q implies !t.key(a).eq_spec(
        &t.key(b),
    ) by {
        assert(t.occupied(a) && t.occupied(b));
        if a == b {
            assert(t.linked(a, s, q));
        }
    }
    assert(t.distinct());
    assert forall|a: int, s: int, p: int| #[trigger] t.linked(a, s, p) implies s == t.slot(
        f(t.key(a)),
    ) by {
        law_slot_is_the_remainder(t, f(t.key(a)));
        assert(t.chains[s][p] == a);
    }
    assert(t.placed_by(f));
    law_shuffle_keeps_lookups(t, f, slots, key);
    if 0 <= i < n && t.buckets[i] is Some {
        let h = hasher.spec_hash(&t.buckets[i].unwrap().0);
        assert(0 <= h as int % slots as int && (h as int % slots as int) < slots)
            by (nonlinear_arith)
            requires
                slots > 0,
        ;
        law_rebuilt_chains(t, f, slots, n, h as int % slots as int, i);
        if t.key(i).eq_spec(&key) {
            law_every_entry_is_found(t, f, i, key);
        }
    } else {
        law_rebuilt_chains(t, f, slots, n, 0, i);
    }
}

/// The occupied ones among the buckets.
spec fn occupied_set<K, V>(buckets: Seq<Option<(K, V)>>) -> Set<int> {
    Set::new(|i: int| 0 <= i < buckets.len() && buckets[i] is Some)
}

proof fn lemma_occupied_set<K, V>(buckets: Seq<Option<(K, V)>>)
    ensures
        occupied_set(buckets).finite(),
        occupied_set(buckets).len() == occupied_count(buckets),
    decreases buckets.len(),
{
    if buckets.len() == 0 {
        assert(occupied_set(buckets) =~= Set::empty());
    } else {
        let last = buckets.len() - 1;
        let rest = buckets.drop_last();
        lemma_occupied_set(rest);
        if buckets[last] is Some {
            assert(occupied_set(buckets) =~= occupied_set(rest).insert(last));
        } else {
            assert(occupied_set(buckets) =~= occupied_set(rest));
        }
    }
}

/// The buckets in use are as many as there are indices of buckets that hold an entry.
pub proof fn law_in_use_counts_the_entries<K, V>(t: Table<K, V>)
    ensures
        Set::new(|i: int| 0 <= i < t.buckets.len() && t.buckets[i] is Some).finite(),
        t.in_use() == Set::new(|i: int| 0 <= i < t.buckets.len() && t.buckets[i] is Some).len(),
{
    lemma_occupied_set(t.buckets);
    assert(Set::new(|i: int| 0 <= i < t.buckets.len() && t.buckets[i] is Some) =~= occupied_set(
        t.buckets,
    ));
}

/// In memory, each dictionary entry holds the first bucket of its chain, each bucket the one that
/// follows it in its chain or in the free list, and the free head the first free bucket. Where
/// none follows, the greatest number stands, which is no bucket.
pub proof fn law_links_hold_the_successors<K, V>(t: Table<K, V>, links: Links, s: int, p: int)
    requires
        t.sound(),
        t.buckets.len() <= u32::MAX,
        links.represent(t),
    ensures
        links.heads.len() == t.chains.len(),
        links.nexts.len() == t.buckets.len(),
        0 <= s < t.chains.len() && t.chains[s].len() == 0 ==> links.heads[s] == u32::MAX,
        0 <= s < t.chains.len() && t.chains[s].len() > 0 ==> links.heads[s] == t.chains[s][0],
        0 <= s < t.chains.len() && 0 <= p < t.chains[s].len() - 1 ==> links.nexts[t.chains[s][p]]
            == t.chains[s][p + 1],
        0 <= s < t.chains.len() && 0 <= p == t.chains[s].len() - 1 ==> links.nexts[t.chains[s][p]]
            == u32::MAX,
        t.free.len() == 0 ==> links.free_head == u32::MAX,
        t.free.len() > 0 ==> links.free_head == t.free[0],
        0 <= p < t.free.len() - 1 ==> links.nexts[t.free[p]] == t.free[p + 1],
        0 <= p == t.free.len() - 1 ==> links.nexts[t.free[p]] == u32::MAX,
{
    if 0 <= s < t.chains.len() {
        assert forall|q: int| 0 <= q < t.chains[s].len() implies 0 <= #[trigger] t.chains[s][q]
            < u32::MAX by {
            assert(t.linked(t.chains[s][q], s, q));
            assert(t.occupied(t.chains[s][q]));
        }
        if 0 <= p < t.chains[s].len() {
            assert(t.linked(t.chains[s][p], s, p));
        }
    }
    assert forall|q: int| 0 <= q < t.free.len() implies 0 <= #[trigger] t.free[q] < u32::MAX by {
        assert(t.listed(t.free[q], q));
        assert(t.vacant(t.free[q]));
    }
    if 0 <= p < t.free.len() {
        assert(t.listed(t.free[p], p));
    }
}

} // verus!
