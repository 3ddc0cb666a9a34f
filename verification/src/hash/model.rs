//! The mathematical model of the hash table.
//!
//! A table has a fixed number of buckets, each empty or holding one entry. Every occupied bucket
//! hangs in exactly one chain, every empty bucket is listed exactly once among the free ones.
use vstd::prelude::*;
use vstd::std_specs::cmp::PartialEqSpec;

verus! {

/// Stands where a chain ends: no bucket has this position.
pub const INVALID_POS: u32 = 0xffff_ffff;

/// What a hash table holds and in which order its chains run through the buckets.
#[verifier::ext_equal]
pub struct Table<K, V> {
    /// The entry of each bucket, if it has one.
    pub buckets: Seq<Option<(K, V)>>,
    /// For each dictionary slot, the buckets of its chain from first to last.
    pub chains: Seq<Seq<int>>,
    /// The empty buckets, in the order in which they will be taken.
    pub free: Seq<int>,
}

/// The links by which a table's chains and its free list run through memory.
#[verifier::ext_equal]
pub struct Links {
    /// The entries of the dictionary.
    pub heads: Seq<u32>,
    /// The link in each bucket.
    pub nexts: Seq<u32>,
    /// The link to the first free bucket.
    pub free_head: u32,
}

/// The link that leads to the `p`-th bucket of a chain.
pub open spec fn link_at(chain: Seq<int>, p: int) -> u32 {
    if 0 <= p < chain.len() {
        chain[p] as u32
    } else {
        INVALID_POS
    }
}

impl Links {
    /// The chains and the free list of `t` are those that the links run through.
    pub open spec fn represent<K, V>(self, t: Table<K, V>) -> bool {
        &&& self.heads.len() == t.chains.len()
        &&& self.nexts.len() == t.buckets.len()
        &&& forall|s: int|
            0 <= s < t.chains.len() ==> #[trigger] self.heads[s] == link_at(t.chains[s], 0)
        &&& forall|i: int, s: int, p: int| #[trigger]
            t.linked(i, s, p) ==> self.nexts[i] == link_at(t.chains[s], p + 1)
        &&& self.free_head == link_at(t.free, 0)
        &&& forall|i: int, p: int| #[trigger]
            t.listed(i, p) ==> self.nexts[i] == link_at(t.free, p + 1)
    }
}

/// The buckets that are met from `link` on, of which there are at most `limit`.
pub open spec fn walk(nexts: Seq<u32>, link: u32, limit: nat) -> Seq<int>
    decreases limit,
{
    if limit == 0 || link == INVALID_POS {
        Seq::empty()
    } else {
        seq![link as int] + walk(nexts, nexts[link as int], (limit - 1) as nat)
    }
}

/// `link` leads to the greatest number below `m` of which `pred` holds, or nowhere if there is
/// none.
pub open spec fn leads_to_greatest(link: u32, pred: spec_fn(int) -> bool, m: int) -> bool {
    if link == INVALID_POS {
        forall|i: int| 0 <= i < m ==> !#[trigger] pred(i)
    } else {
        &&& link < m
        &&& pred(link as int)
        &&& forall|i: int| link < i < m ==> !#[trigger] pred(i)
    }
}

/// How many buckets hold an entry.
pub open spec fn occupied_count<K, V>(buckets: Seq<Option<(K, V)>>) -> nat
    decreases buckets.len(),
{
    if buckets.len() == 0 {
        0
    } else {
        occupied_count(buckets.drop_last()) + if buckets.last() is Some {
            1nat
        } else {
            0nat
        }
    }
}

/// The dictionary slot of a hash value in a dictionary of `slots` entries.
pub open spec fn slot_of_hash(hash: u64, slots: nat) -> int {
    hash as int % slots as int
}

/// The chain of slot `s` once the first `m` buckets have been hung one after the other at the
/// head of the chain that their key's hash selects.
pub open spec fn chain_of<K, V>(
    buckets: Seq<Option<(K, V)>>,
    hash: spec_fn(K) -> u64,
    slots: nat,
    s: int,
    m: nat,
) -> Seq<int>
    decreases m,
{
    if m == 0 {
        Seq::empty()
    } else {
        let i = m - 1;
        let rest = chain_of(buckets, hash, slots, s, i as nat);
        if buckets[i] is Some && slot_of_hash(hash(buckets[i].unwrap().0), slots) == s {
            seq![i] + rest
        } else {
            rest
        }
    }
}

/// The free list once the empty ones among the first `m` buckets have been put one after the
/// other at its head.
pub open spec fn free_of<K, V>(buckets: Seq<Option<(K, V)>>, m: nat) -> Seq<int>
    decreases m,
{
    if m == 0 {
        Seq::empty()
    } else {
        let i = m - 1;
        let rest = free_of(buckets, i as nat);
        if buckets[i] is Some {
            rest
        } else {
            seq![i] + rest
        }
    }
}

impl<K, V> Table<K, V> {
    /// Bucket `i` exists and holds an entry.
    pub open spec fn occupied(self, i: int) -> bool {
        0 <= i < self.buckets.len() && self.buckets[i] is Some
    }

    /// Bucket `i` exists and holds no entry.
    pub open spec fn vacant(self, i: int) -> bool {
        0 <= i < self.buckets.len() && self.buckets[i] is None
    }

    /// Bucket `i` is the `p`-th of the chain of slot `s`.
    pub open spec fn linked(self, i: int, s: int, p: int) -> bool {
        0 <= s < self.chains.len() && 0 <= p < self.chains[s].len() && self.chains[s][p] == i
    }

    /// Bucket `i` is the `p`-th of the free list.
    pub open spec fn listed(self, i: int, p: int) -> bool {
        0 <= p < self.free.len() && self.free[p] == i
    }

    /// Chains run through occupied buckets and the free list through empty ones, and no bucket
    /// is met twice.
    pub open spec fn sound(self) -> bool {
        &&& forall|i: int, s: int, p: int| #[trigger] self.linked(i, s, p) ==> self.occupied(i)
        &&& forall|i: int, s: int, p: int, s2: int, p2: int| #[trigger]
            self.linked(i, s, p) && #[trigger] self.linked(i, s2, p2) ==> s == s2 && p == p2
        &&& forall|i: int, p: int| #[trigger] self.listed(i, p) ==> self.vacant(i)
        &&& forall|i: int, p: int, p2: int| #[trigger]
            self.listed(i, p) && #[trigger] self.listed(i, p2) ==> p == p2
    }

    /// Every occupied bucket is in a chain and every empty one in the free list.
    pub open spec fn complete(self) -> bool {
        &&& forall|i: int| #[trigger]
            self.occupied(i) ==> exists|s: int, p: int| self.linked(i, s, p)
        &&& forall|i: int| #[trigger] self.vacant(i) ==> exists|p: int| self.listed(i, p)
    }

    /// What holds of every table between two operations.
    pub open spec fn wf(self) -> bool {
        &&& self.chains.len() > 0
        &&& self.sound()
        &&& self.complete()
    }

    /// `other` has as many buckets and as many chains.
    pub open spec fn same_size(self, other: Self) -> bool {
        &&& other.buckets.len() == self.buckets.len()
        &&& other.chains.len() == self.chains.len()
    }

    /// The dictionary slot that a hash value selects.
    pub open spec fn slot(self, hash: u64) -> int {
        slot_of_hash(hash, self.chains.len())
    }

    /// How many buckets hold an entry.
    pub open spec fn in_use(self) -> nat {
        occupied_count(self.buckets)
    }

    /// The table with no entry, whose buckets will be taken in ascending order.
    pub open spec fn empty(num_buckets: nat, slots: nat) -> Self {
        Table {
            buckets: Seq::new(num_buckets, |i: int| None),
            chains: Seq::new(slots, |s: int| Seq::empty()),
            free: Seq::new(num_buckets, |i: int| i),
        }
    }

    /// The table after the first free bucket took an entry and went to the head of a chain.
    pub open spec fn inserted(self, s: int, key: K, value: V) -> Self {
        Table {
            buckets: self.buckets.update(self.free[0], Some((key, value))),
            chains: self.chains.update(s, seq![self.free[0]] + self.chains[s]),
            free: self.free.drop_first(),
        }
    }

    /// The table after bucket `i` lost its entry, left its chain and went to the head of the
    /// free list.
    pub open spec fn removed(self, i: int) -> Self {
        Table {
            buckets: self.buckets.update(i, None),
            chains: Seq::new(self.chains.len(), |s: int| self.chains[s].remove_value(i)),
            free: seq![i] + self.free,
        }
    }

    /// The table with another value in the occupied bucket `i`.
    pub open spec fn replaced(self, i: int, value: V) -> Self {
        Table { buckets: self.buckets.update(i, Some((self.buckets[i].unwrap().0, value))), ..self }
    }

    /// The table with its first `m` buckets chained anew under a dictionary of `slots` entries.
    pub open spec fn rehashed(self, hash: spec_fn(K) -> u64, slots: nat, m: nat) -> Self {
        Table {
            buckets: self.buckets,
            chains: Seq::new(slots, |s: int| chain_of(self.buckets, hash, slots, s, m)),
            free: free_of(self.buckets, m),
        }
    }
}

impl<K: PartialEq, V> Table<K, V> {
    /// The first position from `p` on, in the chain of slot `s`, whose bucket holds `key`.
    pub open spec fn find_from(self, s: int, key: K, p: int) -> Option<int>
        decreases self.chains[s].len() - p,
    {
        if p >= self.chains[s].len() {
            None
        } else if self.buckets[self.chains[s][p]].unwrap().0.eq_spec(&key) {
            Some(p)
        } else {
            self.find_from(s, key, p + 1)
        }
    }

    /// The bucket in which `key` is found under `hash`: the first in the chain of the hash's
    /// slot that holds an equal key.
    pub open spec fn lookup(self, key: K, hash: u64) -> Option<int> {
        match self.find_from(self.slot(hash), key, 0) {
            Some(p) => Some(self.chains[self.slot(hash)][p]),
            None => None,
        }
    }

    /// The value that is found for `key` under `hash`.
    pub open spec fn get(self, key: K, hash: u64) -> Option<V> {
        match self.lookup(key, hash) {
            Some(i) => Some(self.buckets[i].unwrap().1),
            None => None,
        }
    }
}

/// No more buckets are occupied than there are.
pub proof fn lemma_count_bound<K, V>(buckets: Seq<Option<(K, V)>>)
    ensures
        occupied_count(buckets) <= buckets.len(),
    decreases buckets.len(),
{
    if buckets.len() > 0 {
        lemma_count_bound(buckets.drop_last());
    }
}

/// Where every bucket is empty, none is counted.
pub proof fn lemma_count_none<K, V>(buckets: Seq<Option<(K, V)>>)
    requires
        forall|i: int| 0 <= i < buckets.len() ==> buckets[i] is None,
    ensures
        occupied_count(buckets) == 0,
    decreases buckets.len(),
{
    if buckets.len() > 0 {
        lemma_count_none(buckets.drop_last());
    }
}

/// How the count changes with one bucket.
pub proof fn lemma_count_update<K, V>(
    buckets: Seq<Option<(K, V)>>,
    i: int,
    b: Option<(K, V)>,
)
    requires
        0 <= i < buckets.len(),
    ensures
        occupied_count(buckets.update(i, b)) == occupied_count(buckets) - (if buckets[i] is Some {
            1int
        } else {
            0int
        }) + (if b is Some {
            1int
        } else {
            0int
        }),
    decreases buckets.len(),
{
    if i == buckets.len() - 1 {
        assert(buckets.update(i, b).drop_last() =~= buckets.drop_last());
    } else {
        assert(buckets.update(i, b).drop_last() =~= buckets.drop_last().update(i, b));
        lemma_count_update(buckets.drop_last(), i, b);
    }
}

/// The empty table is well formed.
pub proof fn lemma_empty_wf<K, V>(num_buckets: nat, slots: nat)
    requires
        slots > 0,
    ensures
        Table::<K, V>::empty(num_buckets, slots).wf(),
        Table::<K, V>::empty(num_buckets, slots).in_use() == 0,
{
    let t = Table::<K, V>::empty(num_buckets, slots);
    lemma_count_none(t.buckets);
    assert forall|i: int| #[trigger] t.vacant(i) implies exists|p: int| t.listed(i, p) by {
        assert(t.listed(i, i));
    }
}

/// An insertion keeps the table well formed.
pub proof fn lemma_inserted_wf<K, V>(t: Table<K, V>, s: int, key: K, value: V)
    requires
        t.wf(),
        0 <= s < t.chains.len(),
        t.free.len() > 0,
    ensures
        t.inserted(s, key, value).wf(),
        t.inserted(s, key, value).in_use() == t.in_use() + 1,
        t.vacant(t.free[0]),
{
    let u = t.inserted(s, key, value);
    let f = t.free[0];
    assert(t.listed(f, 0));
    assert(t.vacant(f));
    lemma_count_update(t.buckets, f, Some((key, value)));
    assert forall|i: int, s2: int, p: int| #[trigger] u.linked(i, s2, p) implies if s2 == s && p
        == 0 {
        i == f
    } else if s2 == s {
        t.linked(i, s, p - 1)
    } else {
        t.linked(i, s2, p)
    } by {}
    assert forall|i: int, p: int| #[trigger] u.listed(i, p) implies t.listed(i, p + 1) by {}
    assert forall|i: int| #[trigger] u.occupied(i) implies exists|s2: int, p: int|
        u.linked(i, s2, p) by {
        if i == f {
            assert(u.linked(f, s, 0));
        } else {
            assert(t.occupied(i));
            let (s2, p) = choose|s2: int, p: int| t.linked(i, s2, p);
            if s2 == s {
                assert(u.linked(i, s, p + 1));
            } else {
                assert(u.linked(i, s2, p));
            }
        }
    }
    assert forall|i: int| #[trigger] u.vacant(i) implies exists|p: int| u.listed(i, p) by {
        assert(t.vacant(i));
        let p = choose|p: int| t.listed(i, p);
        assert(u.listed(i, p - 1));
    }
}

/// Where a bucket leaves its chain, the others stay as they are.
pub proof fn lemma_removed_is<K, V>(t: Table<K, V>, i: int, s: int, p: int)
    requires
        t.sound(),
        t.linked(i, s, p),
    ensures
        t.removed(i).chains == t.chains.update(s, t.chains[s].remove(p)),
{
    let u = t.removed(i);
    assert forall|s2: int| 0 <= s2 < t.chains.len() implies #[trigger] u.chains[s2]
        == t.chains.update(s, t.chains[s].remove(p))[s2] by {
        let c = t.chains[s2];
        c.index_of_first_ensures(i);
        if c.contains(i) {
            let p2 = c.index_of_first(i)->0;
            assert(t.linked(i, s2, p2));
        } else if s2 == s {
            assert(c[p] == i);
        }
    }
    assert(u.chains =~= t.chains.update(s, t.chains[s].remove(p)));
}

/// A removal keeps the table well formed.
pub proof fn lemma_removed_wf<K, V>(t: Table<K, V>, i: int, s: int, p: int)
    requires
        t.wf(),
        t.linked(i, s, p),
    ensures
        t.removed(i).wf(),
        t.removed(i).in_use() == t.in_use() - 1,
        t.removed(i).chains == t.chains.update(s, t.chains[s].remove(p)),
{
    let u = t.removed(i);
    lemma_removed_is(t, i, s, p);
    lemma_count_update(t.buckets, i, None);
    let c = t.chains[s];
    assert forall|j: int, s2: int, q: int| #[trigger] u.linked(j, s2, q) implies j != i && (if s2
        == s && q >= p {
        t.linked(j, s, q + 1)
    } else {
        t.linked(j, s2, q)
    }) by {
        if s2 == s && q >= p {
            assert(t.linked(j, s, q + 1));
        } else {
            assert(t.linked(j, s2, q));
        }
    }
    assert forall|j: int, q: int| #[trigger] u.listed(j, q) implies if q == 0 {
        j == i
    } else {
        t.listed(j, q - 1)
    } by {}
    assert forall|j: int| #[trigger] u.occupied(j) implies exists|s2: int, q: int|
        u.linked(j, s2, q) by {
        assert(t.occupied(j));
        let (s2, q) = choose|s2: int, q: int| t.linked(j, s2, q);
        if s2 == s && q > p {
            assert(u.linked(j, s, q - 1));
        } else {
            assert(u.linked(j, s2, q));
        }
    }
    assert forall|j: int| #[trigger] u.vacant(j) implies exists|q: int| u.listed(j, q) by {
        if j == i {
            assert(u.listed(i, 0));
        } else {
            assert(t.vacant(j));
            let q = choose|q: int| t.listed(j, q);
            assert(u.listed(j, q + 1));
        }
    }
}

/// Another value keeps the table well formed.
pub proof fn lemma_replaced_wf<K, V>(t: Table<K, V>, i: int, value: V)
    requires
        t.wf(),
        t.occupied(i),
    ensures
        t.replaced(i, value).wf(),
        t.replaced(i, value).in_use() == t.in_use(),
{
    let u = t.replaced(i, value);
    lemma_count_update(t.buckets, i, Some((t.buckets[i].unwrap().0, value)));
    assert forall|j: int, s: int, p: int| #[trigger] u.linked(j, s, p) implies t.linked(
        j,
        s,
        p,
    ) by {}
    assert forall|j: int, p: int| #[trigger] u.listed(j, p) implies t.listed(j, p) by {}
    assert forall|j: int| #[trigger] u.occupied(j) implies exists|s: int, p: int|
        u.linked(j, s, p) by {
        assert(t.occupied(j));
        let (s, p) = choose|s: int, p: int| t.linked(j, s, p);
        assert(u.linked(j, s, p));
    }
    assert forall|j: int| #[trigger] u.vacant(j) implies exists|p: int| u.listed(j, p) by {
        assert(t.vacant(j));
        let p = choose|p: int| t.listed(j, p);
        assert(u.listed(j, p));
    }
}

/// A rebuilt chain runs downwards through exactly the buckets whose key hashes to its slot.
pub proof fn lemma_chain_of<K, V>(
    buckets: Seq<Option<(K, V)>>,
    hash: spec_fn(K) -> u64,
    slots: nat,
    s: int,
    m: nat,
)
    ensures
        ({
            let c = chain_of(buckets, hash, slots, s, m);
            &&& forall|p: int|
                0 <= p < c.len() ==> 0 <= #[trigger] c[p] < m && buckets[c[p]] is Some
                    && slot_of_hash(hash(buckets[c[p]].unwrap().0), slots) == s
            &&& forall|p: int, q: int| 0 <= p < q < c.len() ==> #[trigger] c[p] > #[trigger] c[q]
            &&& forall|i: int|
                0 <= i < m && buckets[i] is Some && slot_of_hash(
                    hash(buckets[i].unwrap().0),
                    slots,
                ) == s ==> #[trigger] c.contains(i)
        }),
    decreases m,
{
    if m > 0 {
        let k = (m - 1) as nat;
        lemma_chain_of(buckets, hash, slots, s, k);
        let c = chain_of(buckets, hash, slots, s, m);
        let rest = chain_of(buckets, hash, slots, s, k);
        assert forall|i: int|
            0 <= i < m && buckets[i] is Some && slot_of_hash(hash(buckets[i].unwrap().0), slots)
                == s implies #[trigger] c.contains(i) by {
            if i == k {
                assert(c[0] == i);
            } else {
                assert(rest.contains(i));
                let p = choose|p: int| 0 <= p < rest.len() && rest[p] == i;
                if c.len() == rest.len() {
                    assert(c[p] == i);
                } else {
                    assert(c[p + 1] == i);
                }
            }
        }
    }
}

/// A rebuilt free list runs downwards through exactly the empty buckets.
pub proof fn lemma_free_of<K, V>(buckets: Seq<Option<(K, V)>>, m: nat)
    ensures
        ({
            let c = free_of(buckets, m);
            &&& forall|p: int|
                0 <= p < c.len() ==> 0 <= #[trigger] c[p] < m && buckets[c[p]] is None
            &&& forall|p: int, q: int| 0 <= p < q < c.len() ==> #[trigger] c[p] > #[trigger] c[q]
            &&& forall|i: int| 0 <= i < m && buckets[i] is None ==> #[trigger] c.contains(i)
        }),
    decreases m,
{
    if m > 0 {
        let k = (m - 1) as nat;
        lemma_free_of(buckets, k);
        let c = free_of(buckets, m);
        let rest = free_of(buckets, k);
        assert forall|i: int| 0 <= i < m && buckets[i] is None implies #[trigger] c.contains(i) by {
            if i == k {
                assert(c[0] == i);
            } else {
                assert(rest.contains(i));
                let p = choose|p: int| 0 <= p < rest.len() && rest[p] == i;
                if c.len() == rest.len() {
                    assert(c[p] == i);
                } else {
                    assert(c[p + 1] == i);
                }
            }
        }
    }
}

/// Chains and free list rebuilt over the first `m` buckets are sound and stay among these.
pub proof fn lemma_rehashed_sound<K, V>(
    t: Table<K, V>,
    hash: spec_fn(K) -> u64,
    slots: nat,
    m: nat,
)
    requires
        m <= t.buckets.len(),
    ensures
        t.rehashed(hash, slots, m).sound(),
        forall|i: int, s: int, p: int| #[trigger]
            t.rehashed(hash, slots, m).linked(i, s, p) ==> i < m,
        forall|i: int, p: int| #[trigger] t.rehashed(hash, slots, m).listed(i, p) ==> i < m,
{
    let u = t.rehashed(hash, slots, m);
    lemma_free_of(t.buckets, m);
    assert forall|i: int, s: int, p: int| #[trigger] u.linked(i, s, p) implies u.occupied(i)
        && i < m && slot_of_hash(hash(t.buckets[i].unwrap().0), slots) == s by {
        lemma_chain_of(t.buckets, hash, slots, s, m);
    }
    assert forall|i: int, s: int, p: int, s2: int, p2: int| #[trigger]
        u.linked(i, s, p) && #[trigger] u.linked(i, s2, p2) implies s == s2 && p == p2 by {
        lemma_chain_of(t.buckets, hash, slots, s, m);
        let c = u.chains[s];
        if p < p2 {
            assert(c[p] > c[p2]);
        } else if p2 < p {
            assert(c[p2] > c[p]);
        }
    }
    assert forall|i: int, p: int, p2: int| #[trigger] u.listed(i, p) && #[trigger] u.listed(
        i,
        p2,
    ) implies p == p2 by {
        if p < p2 {
            assert(u.free[p] > u.free[p2]);
        } else if p2 < p {
            assert(u.free[p2] > u.free[p]);
        }
    }
}

/// Rebuilt over all buckets, the table is well formed.
pub proof fn lemma_rehashed_wf<K, V>(t: Table<K, V>, hash: spec_fn(K) -> u64, slots: nat)
    requires
        slots > 0,
    ensures
        t.rehashed(hash, slots, t.buckets.len()).wf(),
{
    let m = t.buckets.len();
    let u = t.rehashed(hash, slots, m);
    lemma_rehashed_sound(t, hash, slots, m);
    assert forall|i: int| #[trigger] u.occupied(i) implies exists|s: int, p: int|
        u.linked(i, s, p) by {
        let s = slot_of_hash(hash(t.buckets[i].unwrap().0), slots);
        assert(0 <= s < slots) by (nonlinear_arith)
            requires
                s == hash(t.buckets[i].unwrap().0) as int % slots as int,
                slots > 0,
        ;
        lemma_chain_of(t.buckets, hash, slots, s, m);
        assert(u.chains[s].contains(i));
        let p = choose|p: int| 0 <= p < u.chains[s].len() && u.chains[s][p] == i;
        assert(u.linked(i, s, p));
    }
    lemma_free_of(t.buckets, m);
    assert forall|i: int| #[trigger] u.vacant(i) implies exists|p: int| u.listed(i, p) by {
        assert(u.free.contains(i));
        let p = choose|p: int| 0 <= p < u.free.len() && u.free[p] == i;
        assert(u.listed(i, p));
    }
}

} // verus!
