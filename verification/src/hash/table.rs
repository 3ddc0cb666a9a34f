//! The chained hash table itself, over borrowed memory.
use crate::hash::entry::{Entry, OccupiedEntry, VacantEntry};
use crate::hash::hasher::{hash_fn, KeyHasher};
use crate::hash::model::{
    lemma_count_bound, lemma_empty_wf, lemma_inserted_wf, lemma_rehashed_sound, lemma_rehashed_wf,
    lemma_removed_wf, lemma_replaced_wf, link_at, Links, Table, INVALID_POS,
};
use vstd::prelude::*;
use vstd::std_specs::cmp::PartialEqSpec;

verus! {

/// The key part of a bucket: its key, if the bucket is occupied, and the bucket that follows it
/// in its chain or in the free list.
pub struct LinkedKey<K> {
    pub(crate) inner: Option<K>,
    pub(crate) next: u32,
}

impl<K> LinkedKey<K> {
    /// A key part with no key and no successor, with which memory can be filled before a table
    /// is made of it.
    pub fn vacant() -> (r: Self)
        ensures
            r.holds() is None,
            r.link() == INVALID_POS,
    {
        LinkedKey { inner: None, next: INVALID_POS }
    }

    /// The key it holds.
    pub closed spec fn holds(self) -> Option<K> {
        self.inner
    }

    /// The bucket that follows.
    pub closed spec fn link(self) -> u32 {
        self.next
    }
}

/// No bucket is left for another entry.
#[derive(Debug, Clone, Copy, PartialEq, Eq)]
pub struct FullError;

/// Where the link to a bucket stands.
#[derive(Debug, Clone, Copy)]
pub enum PrevPos {
    /// In this slot of the dictionary.
    First(usize),
    /// In this bucket.
    Chained(u32),
    /// Not known yet.
    Unknown,
}

/// The table: a dictionary of chain heads, and buckets of which each has a key part and a value
/// part. The three are parts of an area that is lent to the table. Of the dictionary part the
/// first `slots` entries are in use.
pub struct CoreHashMap<'a, K, V> {
    pub(crate) dictionary: &'a mut [u32],
    pub(crate) slots: usize,
    pub(crate) keys: &'a mut [LinkedKey<K>],
    pub(crate) vals: &'a mut [Option<V>],
    pub(crate) free_head: u32,
    pub(crate) buckets_in_use: u32,
    pub(crate) chains: Ghost<Seq<Seq<int>>>,
    pub(crate) free: Ghost<Seq<int>>,
}

/// The entry of a bucket, from its two parts.
pub open spec fn bucket_of<K, V>(key: Option<K>, value: Option<V>) -> Option<(K, V)> {
    match key {
        Some(k) => Some((k, value->0)),
        None => None,
    }
}

/// `prev` says where the link to bucket `i` stands, or says nothing.
pub open spec fn leads_to<K, V>(t: Table<K, V>, prev: PrevPos, i: int) -> bool {
    match prev {
        PrevPos::First(s) => t.linked(i, s as int, 0),
        PrevPos::Chained(j) => exists|s: int, p: int|
            t.linked(j as int, s, p) && #[trigger] t.linked(i, s, p + 1),
        PrevPos::Unknown => true,
    }
}

impl<'a, K, V> CoreHashMap<'a, K, V> {
    /// What the table holds.
    pub closed spec fn table(self) -> Table<K, V> {
        Table {
            buckets: Seq::new(
                self.keys@.len(),
                |i: int| bucket_of(self.keys@[i].inner, self.vals@[i]),
            ),
            chains: self.chains@,
            free: self.free@,
        }
    }

    /// The memory of the key parts.
    pub closed spec fn key_parts(self) -> &'a mut [LinkedKey<K>] {
        self.keys
    }

    /// The memory of the value parts.
    pub closed spec fn value_parts(self) -> &'a mut [Option<V>] {
        self.vals
    }

    /// The memory of the dictionary.
    pub closed spec fn dictionary_part(self) -> &'a mut [u32] {
        self.dictionary
    }

    /// The links in memory.
    pub closed spec fn links(self) -> Links {
        Links {
            heads: self.dictionary@.subrange(0, self.slots as int),
            nexts: Seq::new(self.keys@.len(), |i: int| self.keys@[i].next),
            free_head: self.free_head,
        }
    }

    /// How many buckets are counted as occupied.
    pub closed spec fn count(self) -> u32 {
        self.buckets_in_use
    }

    /// `other` has as many buckets, chains and dictionary entries.
    pub open spec fn same_shape(self, other: Self) -> bool {
        &&& self.table().same_size(other.table())
        &&& self.dictionary_part()@.len() == other.dictionary_part()@.len()
    }

    /// The links in memory are those of the model.
    spec fn linked_up(self) -> bool {
        let t = self.table();
        &&& self.slots == t.chains.len()
        &&& self.slots <= self.dictionary@.len()
        &&& forall|s: int|
            0 <= s < t.chains.len() ==> #[trigger] self.dictionary@[s] == link_at(t.chains[s], 0)
        &&& forall|i: int, s: int, p: int| #[trigger]
            t.linked(i, s, p) ==> self.keys@[i].next == link_at(t.chains[s], p + 1)
        &&& self.free_head == link_at(t.free, 0)
        &&& forall|i: int, p: int| #[trigger]
            t.listed(i, p) ==> self.keys@[i].next == link_at(t.free, p + 1)
    }

    /// The two parts of each bucket agree on whether it is occupied.
    spec fn paired(self) -> bool {
        &&& self.keys@.len() == self.vals@.len()
        &&& self.keys@.len() <= u32::MAX
        &&& forall|i: int|
            #![trigger self.keys@[i]]
            #![trigger self.vals@[i]]
            0 <= i < self.keys@.len() ==> (self.keys@[i].inner is Some <==> self.vals@[i] is Some)
    }

    /// The two parts of each bucket agree, and the occupied buckets are counted.
    pub closed spec fn counted(self) -> bool {
        &&& self.paired()
        &&& self.buckets_in_use == self.table().in_use()
    }

    /// What holds of the table between two operations.
    pub closed spec fn wf(self) -> bool {
        &&& self.counted()
        &&& self.linked_up()
        &&& self.table().wf()
    }

    /// Between two operations the model of the table is well formed, and the links in memory and
    /// the count are those of the model.
    pub proof fn lemma_wf(self)
        requires
            self.wf(),
        ensures
            self.table().wf(),
            self.table().buckets.len() <= u32::MAX,
            self.links().represent(self.table()),
            self.counted(),
            self.count() == self.table().in_use(),
    {
        self.lemma_represent();
    }

    /// The buckets of the model are those in memory, and where they are counted, a value stands
    /// with each key and nowhere else.
    pub proof fn lemma_parts(self)
        ensures
            self.table().buckets.len() == self.key_parts()@.len(),
            forall|i: int|
                0 <= i < self.key_parts()@.len() ==> #[trigger] self.table().buckets[i]
                    == bucket_of(self.key_parts()@[i].holds(), self.value_parts()@[i]),
            self.counted() ==> self.value_parts()@.len() == self.key_parts()@.len(),
            self.counted() ==> forall|i: int| #![trigger self.value_parts()@[i]]
                0 <= i < self.key_parts()@.len() ==> (self.value_parts()@[i] is Some
                    <==> self.key_parts()@[i].holds() is Some),
    {
    }

    proof fn lemma_represent(self)
        requires
            self.linked_up(),
            self.table().sound(),
        ensures
            self.links().represent(self.table()),
    {
        let t = self.table();
        assert forall|i: int, s: int, p: int| #[trigger]
            t.linked(i, s, p) implies self.links().nexts[i] == link_at(t.chains[s], p + 1) by {
            assert(t.occupied(i));
        }
        assert forall|i: int, p: int| #[trigger] t.listed(i, p) implies self.links().nexts[i]
            == link_at(t.free, p + 1) by {
            assert(t.vacant(i));
        }
    }

    /// Makes an empty table of the memory that it is given.
    pub fn new(
        keys: &'a mut [LinkedKey<K>],
        vals: &'a mut [Option<V>],
        dictionary: &'a mut [u32],
    ) -> (r: Self)
        requires
            old(keys)@.len() == old(vals)@.len(),
            old(keys)@.len() <= u32::MAX,
            old(dictionary)@.len() > 0,
        ensures
            r.wf(),
            r.table() == Table::<K, V>::empty(old(keys)@.len(), old(dictionary)@.len()),
            final(keys)@ == final(r.key_parts())@,
            final(vals)@ == final(r.value_parts())@,
            final(dictionary)@ == final(r.dictionary_part())@,
            r.dictionary_part()@.len() == old(dictionary)@.len(),
    {
        let slots: usize = dictionary.len();
        let mut r = CoreHashMap {
            dictionary,
            slots,
            keys,
            vals,
            free_head: INVALID_POS,
            buckets_in_use: 0,
            chains: Ghost(Seq::empty()),
            free: Ghost(Seq::empty()),
        };
        r.reset();
        r
    }

    /// Empties every bucket and every chain, and lists the buckets in ascending order as free.
    fn reset(&mut self)
        requires
            old(self).keys@.len() == old(self).vals@.len(),
            old(self).keys@.len() <= u32::MAX,
            0 < old(self).slots <= old(self).dictionary@.len(),
        ensures
            final(self).wf(),
            final(self).table() == Table::<K, V>::empty(
                old(self).keys@.len(),
                old(self).slots as nat,
            ),
            final(self).dictionary@.len() == old(self).dictionary@.len(),
            final(final(self).keys)@ == final(old(self).keys)@,
            final(final(self).vals)@ == final(old(self).vals)@,
            final(final(self).dictionary)@ == final(old(self).dictionary)@,
    {
        let n: usize = self.keys.len();
        let d: usize = self.slots;
        let ghost whole = self.dictionary@.len();
        let mut i: usize = 0;
        while i < n
            invariant
                final(self.keys)@ == final(old(self).keys)@,
                final(self.vals)@ == final(old(self).vals)@,
                final(self.dictionary)@ == final(old(self).dictionary)@,
                i <= n,
                n <= u32::MAX,
                self.keys@.len() == n,
                self.vals@.len() == n,
                self.slots == d,
                d <= whole,
                self.dictionary@.len() == whole,
                forall|j: int|
                    0 <= j < i ==> #[trigger] self.keys@[j] == (LinkedKey {
                        inner: None::<K>,
                        next: if j + 1 < n {
                            (j + 1) as u32
                        } else {
                            INVALID_POS
                        },
                    }),
                forall|j: int| 0 <= j < i ==> #[trigger] self.vals@[j] is None,
            decreases n - i,
        {
            self.keys[i] = LinkedKey {
                inner: None,
                next: if i < n - 1 {
                    i as u32 + 1
                } else {
                    INVALID_POS
                },
            };
            self.vals[i] = None;
            i = i + 1;
        }
        let mut s: usize = 0;
        while s < d
            invariant
                final(self.keys)@ == final(old(self).keys)@,
                final(self.vals)@ == final(old(self).vals)@,
                final(self.dictionary)@ == final(old(self).dictionary)@,
                s <= d,
                n <= u32::MAX,
                self.keys@.len() == n,
                self.vals@.len() == n,
                self.slots == d,
                d <= whole,
                self.dictionary@.len() == whole,
                forall|j: int|
                    0 <= j < n ==> #[trigger] self.keys@[j] == (LinkedKey {
                        inner: None::<K>,
                        next: if j + 1 < n {
                            (j + 1) as u32
                        } else {
                            INVALID_POS
                        },
                    }),
                forall|j: int| 0 <= j < n ==> #[trigger] self.vals@[j] is None,
                forall|j: int| 0 <= j < s ==> #[trigger] self.dictionary@[j] == INVALID_POS,
            decreases d - s,
        {
            self.dictionary[s] = INVALID_POS;
            s = s + 1;
        }
        self.free_head = if n > 0 {
            0
        } else {
            INVALID_POS
        };
        self.buckets_in_use = 0;
        proof {
            let t = Table::<K, V>::empty(n as nat, d as nat);
            self.chains@ = t.chains;
            self.free@ = t.free;
            lemma_empty_wf::<K, V>(n as nat, d as nat);
            assert(self.table() =~= t);
        }
    }
}

impl<'a, K, V> CoreHashMap<'a, K, V> {
    /// How many buckets there are.
    pub fn get_num_buckets(&self) -> (r: usize)
        ensures
            r == self.table().buckets.len(),
    {
        self.keys.len()
    }

    /// How many buckets are occupied.
    pub fn get_num_buckets_in_use(&self) -> (r: usize)
        requires
            self.wf(),
        ensures
            r == self.table().in_use(),
    {
        self.buckets_in_use as usize
    }

    /// Removes every entry.
    pub fn clear(&mut self)
        requires
            old(self).wf(),
        ensures
            final(self).wf(),
            final(self).table() == Table::<K, V>::empty(
                old(self).table().buckets.len(),
                old(self).table().chains.len(),
            ),
            old(self).same_shape(*final(self)),
            final(final(self).key_parts())@ == final(old(self).key_parts())@,
            final(final(self).value_parts())@ == final(old(self).value_parts())@,
            final(final(self).dictionary_part())@ == final(old(self).dictionary_part())@,
    {
        self.reset();
    }

    /// The entry of the bucket at `pos`, if there is such a bucket and it is occupied.
    pub fn get_at_bucket(&self, pos: usize) -> (r: Option<(&K, &V)>)
        requires
            self.wf(),
        ensures
            r is Some <==> self.table().occupied(pos as int),
            r matches Some(kv) ==> self.table().buckets[pos as int] == Some((*kv.0, *kv.1)),
    {
        if pos >= self.keys.len() {
            return None;
        }
        match &self.keys[pos].inner {
            Some(k) => Some((k, self.vals[pos].as_ref().unwrap())),
            None => None,
        }
    }

    /// The value in the occupied bucket at `pos`.
    pub(crate) fn value(&self, pos: u32) -> (r: &V)
        requires
            self.wf(),
            self.table().occupied(pos as int),
        ensures
            *r == self.table().buckets[pos as int].unwrap().1,
    {
        self.vals[pos as usize].as_ref().unwrap()
    }

    /// The value in the occupied bucket at `pos`, to be changed in place.
    pub(crate) fn value_mut(&mut self, pos: u32) -> (r: &mut V)
        requires
            old(self).wf(),
            old(self).table().occupied(pos as int),
        ensures
            *r == old(self).table().buckets[pos as int].unwrap().1,
            final(self).wf(),
            old(self).same_shape(*final(self)),
            final(final(self).key_parts())@ == final(old(self).key_parts())@,
            final(final(self).value_parts())@ == final(old(self).value_parts())@,
            final(final(self).dictionary_part())@ == final(old(self).dictionary_part())@,
            final(self).table() == old(self).table().replaced(pos as int, *final(r)),
    {
        let ghost before = *self;
        let r = self.vals[pos as usize].as_mut().unwrap();
        proof {
            before.lemma_other_value(after_borrow(*self), pos as int, *final(r));
        }
        r
    }

    /// Another value in an occupied bucket changes nothing else.
    proof fn lemma_other_value(self, other: Self, i: int, v: V)
        requires
            self.wf(),
            self.table().occupied(i),
            other.dictionary@ == self.dictionary@,
            other.slots == self.slots,
            other.keys@ == self.keys@,
            other.vals@ == self.vals@.update(i, Some(v)),
            other.free_head == self.free_head,
            other.buckets_in_use == self.buckets_in_use,
            other.chains == self.chains,
            other.free == self.free,
        ensures
            other.wf(),
            other.table() == self.table().replaced(i, v),
    {
        let t = self.table();
        assert(other.table() =~= t.replaced(i, v));
        lemma_replaced_wf(t, i, v);
        assert forall|j: int, s: int, p: int| #[trigger]
            other.table().linked(j, s, p) implies t.linked(j, s, p) by {}
        assert forall|j: int, p: int| #[trigger] other.table().listed(j, p) implies t.listed(
            j,
            p,
        ) by {}
    }
}

impl<'a, K, V> CoreHashMap<'a, K, V> {
    /// Puts an entry into the first free bucket and hangs it at the head of a slot's chain.
    pub(crate) fn insert_in_slot(&mut self, slot: usize, key: K, value: V) -> (r: Result<
        u32,
        FullError,
    >)
        requires
            old(self).wf(),
            slot < old(self).table().chains.len(),
        ensures
            final(self).wf(),
            old(self).same_shape(*final(self)),
            final(final(self).key_parts())@ == final(old(self).key_parts())@,
            final(final(self).value_parts())@ == final(old(self).value_parts())@,
            final(final(self).dictionary_part())@ == final(old(self).dictionary_part())@,
            match r {
                Ok(pos) => {
                    &&& old(self).table().free.len() > 0
                    &&& pos == old(self).table().free[0]
                    &&& final(self).table() == old(self).table().inserted(slot as int, key, value)
                },
                Err(_) => {
                    &&& old(self).table().free.len() == 0
                    &&& final(self).table() == old(self).table()
                },
            },
    {
        let ghost t = self.table();
        let pos: u32 = self.free_head;
        if pos == INVALID_POS {
            proof {
                if t.free.len() > 0 {
                    assert(t.listed(t.free[0], 0));
                    assert(t.vacant(t.free[0]));
                }
            }
            return Err(FullError);
        }
        proof {
            lemma_inserted_wf(t, slot as int, key, value);
            lemma_count_bound(t.inserted(slot as int, key, value).buckets);
            assert(t.listed(t.free[0], 0));
        }
        self.free_head = self.keys[pos as usize].next;
        self.keys[pos as usize] = LinkedKey { inner: Some(key), next: self.dictionary[slot] };
        self.vals[pos as usize] = Some(value);
        self.dictionary[slot] = pos;
        self.buckets_in_use = self.buckets_in_use + 1;
        proof {
            let u = t.inserted(slot as int, key, value);
            self.chains@ = u.chains;
            self.free@ = u.free;
            assert(self.table() =~= u);
            assert forall|i: int, s: int, p: int| #[trigger]
                u.linked(i, s, p) implies self.keys@[i].next == link_at(u.chains[s], p + 1) by {
                if s == slot && p == 0 {
                } else if s == slot {
                    assert(t.linked(i, s, p - 1));
                } else {
                    assert(t.linked(i, s, p));
                }
            }
            assert forall|i: int, p: int| #[trigger] u.listed(i, p) implies self.keys@[i].next
                == link_at(u.free, p + 1) by {
                assert(t.listed(i, p + 1));
            }
            assert forall|s: int| 0 <= s < u.chains.len() implies #[trigger] self.dictionary@[s]
                == link_at(u.chains[s], 0) by {}
        }
        Ok(pos)
    }

    /// Finds where the link to an occupied bucket stands.
    fn locate(&self, pos: u32) -> (r: PrevPos)
        requires
            self.wf(),
            self.table().occupied(pos as int),
        ensures
            !(r is Unknown),
            leads_to(self.table(), r, pos as int),
    {
        let ghost t = self.table();
        let mut slot: usize = 0;
        while slot < self.slots
            invariant
                self.wf(),
                t == self.table(),
                t.occupied(pos as int),
                slot <= t.chains.len(),
                forall|p: int, s: int| 0 <= s < slot ==> !#[trigger] t.linked(pos as int, s, p),
            decreases t.chains.len() - slot,
        {
            let mut prev = PrevPos::First(slot);
            let mut next: u32 = self.dictionary[slot];
            let ghost mut p: int = 0;
            while next != INVALID_POS
                invariant
                    self.wf(),
                    t == self.table(),
                    t.occupied(pos as int),
                    0 <= slot < t.chains.len(),
                    0 <= p <= t.chains[slot as int].len(),
                    next == link_at(t.chains[slot as int], p),
                    forall|q: int| 0 <= q < p ==> t.chains[slot as int][q] != pos,
                    !(prev is Unknown),
                    p < t.chains[slot as int].len() ==> leads_to(
                        t,
                        prev,
                        t.chains[slot as int][p],
                    ),
                decreases t.chains[slot as int].len() - p,
            {
                let ghost i = t.chains[slot as int][p];
                assert(t.linked(i, slot as int, p));
                assert(t.occupied(i));
                if next == pos {
                    return prev;
                }
                prev = PrevPos::Chained(next);
                next = self.keys[next as usize].next;
                proof {
                    if p + 1 < t.chains[slot as int].len() {
                        assert(t.linked(t.chains[slot as int][p + 1], slot as int, p + 1));
                    }
                    p = p + 1;
                }
            }
            proof {
                if p < t.chains[slot as int].len() {
                    assert(t.linked(t.chains[slot as int][p], slot as int, p));
                }
                assert forall|q: int, s: int| 0 <= s < slot + 1 implies !#[trigger] t.linked(
                    pos as int,
                    s,
                    q,
                ) by {}
            }
            slot = slot + 1;
        }
        proof {
            let (s, p) = choose|s: int, p: int| t.linked(pos as int, s, p);
            assert(t.linked(pos as int, s, p));
        }
        PrevPos::Unknown
    }

    /// Takes the entry out of an occupied bucket, takes the bucket out of its chain and puts it
    /// at the head of the free list.
    pub(crate) fn unlink(&mut self, prev: PrevPos, pos: u32) -> (r: V)
        requires
            old(self).wf(),
            old(self).table().occupied(pos as int),
            leads_to(old(self).table(), prev, pos as int),
        ensures
            final(self).wf(),
            old(self).same_shape(*final(self)),
            final(final(self).key_parts())@ == final(old(self).key_parts())@,
            final(final(self).value_parts())@ == final(old(self).value_parts())@,
            final(final(self).dictionary_part())@ == final(old(self).dictionary_part())@,
            final(self).table() == old(self).table().removed(pos as int),
            r == old(self).table().buckets[pos as int].unwrap().1,
    {
        let ghost t = self.table();
        let prev = match prev {
            PrevPos::Unknown => self.locate(pos),
            _ => prev,
        };
        let ghost (s, p) = choose|s: int, p: int| t.linked(pos as int, s, p);
        let next: u32 = self.keys[pos as usize].next;
        proof {
            lemma_removed_wf(t, pos as int, s, p);
        }
        match prev {
            PrevPos::First(slot) => {
                self.dictionary[slot] = next;
            },
            PrevPos::Chained(before) => {
                self.keys[before as usize].next = next;
            },
            PrevPos::Unknown => {},
        }
        self.keys[pos as usize] = LinkedKey { inner: None, next: self.free_head };
        let value = self.vals[pos as usize].take().unwrap();
        self.free_head = pos;
        self.buckets_in_use = self.buckets_in_use - 1;
        proof {
            let u = t.removed(pos as int);
            self.chains@ = u.chains;
            self.free@ = u.free;
            assert(self.table() =~= u);
            assert forall|i: int, s2: int, q: int| #[trigger]
                u.linked(i, s2, q) implies self.keys@[i].next == link_at(u.chains[s2], q + 1) by {
                if s2 == s && q >= p {
                    assert(t.linked(i, s, q + 1));
                } else {
                    assert(t.linked(i, s2, q));
                }
            }
            assert forall|i: int, q: int| #[trigger] u.listed(i, q) implies self.keys@[i].next
                == link_at(u.free, q + 1) by {
                if q > 0 {
                    assert(t.listed(i, q - 1));
                }
            }
            assert forall|s2: int| 0 <= s2 < u.chains.len() implies #[trigger] self.dictionary@[s2]
                == link_at(u.chains[s2], 0) by {}
        }
        value
    }
}

impl<'a, K: Eq, V> CoreHashMap<'a, K, V> {
    /// Finds the bucket that holds `key` in the chain of `hash`, and where the link to it stands.
    fn find(&self, key: &K, hash: u64) -> (r: Option<(PrevPos, u32)>)
        requires
            self.wf(),
            K::obeys_eq_spec(),
        ensures
            match r {
                Some(found) => {
                    &&& self.table().lookup(*key, hash) == Some(found.1 as int)
                    &&& self.table().occupied(found.1 as int)
                    &&& leads_to(self.table(), found.0, found.1 as int)
                    &&& !(found.0 is Unknown)
                },
                None => self.table().lookup(*key, hash) is None,
            },
    {
        let ghost t = self.table();
        let slot: usize = (hash % self.slots as u64) as usize;
        let mut prev = PrevPos::First(slot);
        let mut next: u32 = self.dictionary[slot];
        let ghost mut p: int = 0;
        while next != INVALID_POS
            invariant
                self.wf(),
                K::obeys_eq_spec(),
                t == self.table(),
                0 <= slot < t.chains.len(),
                slot == t.slot(hash),
                0 <= p <= t.chains[slot as int].len(),
                next == link_at(t.chains[slot as int], p),
                t.find_from(slot as int, *key, 0) == t.find_from(slot as int, *key, p),
                !(prev is Unknown),
                p < t.chains[slot as int].len() ==> leads_to(t, prev, t.chains[slot as int][p]),
            decreases t.chains[slot as int].len() - p,
        {
            let ghost i = t.chains[slot as int][p];
            assert(t.linked(i, slot as int, p));
            assert(t.occupied(i));
            let link = &self.keys[next as usize];
            if let Some(k) = &link.inner {
                if *k == *key {
                    return Some((prev, next));
                }
            }
            prev = PrevPos::Chained(next);
            next = link.next;
            proof {
                if p + 1 < t.chains[slot as int].len() {
                    assert(t.linked(t.chains[slot as int][p + 1], slot as int, p + 1));
                }
                p = p + 1;
            }
        }
        None
    }

    /// The value that is found for `key` under `hash`.
    pub fn get_with_hash(&self, key: &K, hash: u64) -> (r: Option<&V>)
        requires
            self.wf(),
            K::obeys_eq_spec(),
        ensures
            r is Some <==> self.table().get(*key, hash) is Some,
            r matches Some(v) ==> self.table().get(*key, hash) == Some(*v),
    {
        match self.find(key, hash) {
            Some((_, pos)) => Some(self.value(pos)),
            None => None,
        }
    }
}

impl<'a, K: Eq, V> CoreHashMap<'a, K, V> {
    /// The place of `key` in the chain of `hash`.
    pub fn entry_with_hash(&mut self, key: K, hash: u64) -> (r: Entry<'a, '_, K, V>)
        requires
            old(self).wf(),
            K::obeys_eq_spec(),
        ensures
            match r {
                Entry::Occupied(e) => {
                    &&& old(self).table().lookup(key, hash) == Some(e.pos())
                    &&& e.wf()
                    &&& e.now() == *old(self)
                    &&& *final(e.map()) == *final(self)
                },
                Entry::Vacant(e) => {
                    &&& old(self).table().lookup(key, hash) is None
                    &&& e.wf()
                    &&& e.now() == *old(self)
                    &&& e.spec_key() == key
                    &&& e.slot() == old(self).table().slot(hash)
                    &&& *final(e.map()) == *final(self)
                },
            },
    {
        match self.find(&key, hash) {
            Some((prev_pos, bucket_pos)) => Entry::Occupied(
                OccupiedEntry::new(self, prev_pos, bucket_pos),
            ),
            None => {
                let dict_pos: usize = (hash % self.slots as u64) as usize;
                Entry::Vacant(VacantEntry::new(self, key, dict_pos))
            },
        }
    }

    /// Removes the entry that is found for `key` under `hash`, if there is one.
    pub fn remove_with_hash(&mut self, key: &K, hash: u64)
        requires
            old(self).wf(),
            K::obeys_eq_spec(),
        ensures
            final(self).wf(),
            old(self).same_shape(*final(self)),
            final(final(self).key_parts())@ == final(old(self).key_parts())@,
            final(final(self).value_parts())@ == final(old(self).value_parts())@,
            final(final(self).dictionary_part())@ == final(old(self).dictionary_part())@,
            final(self).table() == (match old(self).table().lookup(*key, hash) {
                Some(i) => old(self).table().removed(i),
                None => old(self).table(),
            }),
    {
        match self.find(key, hash) {
            Some((prev_pos, bucket_pos)) => {
                let entry = OccupiedEntry::new(self, prev_pos, bucket_pos);
                entry.remove();
            },
            None => {},
        }
    }
}

impl<'a, K, V> CoreHashMap<'a, K, V> {
    /// The entry in the bucket at `pos`, if there is such a bucket and it is occupied.
    pub fn entry_at_bucket(&mut self, pos: usize) -> (r: Option<OccupiedEntry<'a, '_, K, V>>)
        requires
            old(self).wf(),
        ensures
            r is Some <==> old(self).table().occupied(pos as int),
            match r {
                Some(e) => {
                    &&& e.pos() == pos
                    &&& e.wf()
                    &&& e.now() == *old(self)
                    &&& *final(e.map()) == *final(self)
                },
                None => *final(self) == *old(self),
            },
    {
        if pos >= self.keys.len() || self.keys[pos].inner.is_none() {
            return None;
        }
        Some(OccupiedEntry::new(self, PrevPos::Unknown, pos as u32))
    }
}

impl<'a, K, V> CoreHashMap<'a, K, V> {
    /// Takes the first `slots` entries of the dictionary part into use and hangs each of the
    /// first `rehash_buckets` buckets at the head of the chain that its key's hash selects, or of
    /// the free list. What links there were before does not matter.
    pub(crate) fn rehash<S: KeyHasher<K>>(
        &mut self,
        hasher: &S,
        slots: usize,
        rehash_buckets: u32,
    )
        requires
            slots <= old(self).dictionary_part()@.len(),
            rehash_buckets <= old(self).table().buckets.len(),
            slots == 0 ==> forall|i: int| 0 <= i < rehash_buckets ==> old(self).table().vacant(i),
        ensures
            final(self).table() == old(self).table().rehashed(
                hash_fn(*hasher),
                slots as nat,
                rehash_buckets as nat,
            ),
            final(self).links().represent(final(self).table()),
            forall|i: int|
                rehash_buckets <= i < old(self).table().buckets.len()
                    ==> #[trigger] final(self).links().nexts[i] == old(self).links().nexts[i],
            final(self).key_parts()@.len() == old(self).key_parts()@.len(),
            forall|i: int| #![trigger final(self).key_parts()@[i]]
                0 <= i < old(self).key_parts()@.len() ==> final(self).key_parts()@[i].holds()
                    == old(self).key_parts()@[i].holds(),
            final(self).value_parts()@ == old(self).value_parts()@,
            final(self).dictionary_part()@.len() == old(self).dictionary_part()@.len(),
            final(self).count() == old(self).count(),
            old(self).counted() && slots > 0 && rehash_buckets == old(self).table().buckets.len()
                ==> final(self).wf(),
            final(final(self).key_parts())@ == final(old(self).key_parts())@,
            final(final(self).value_parts())@ == final(old(self).value_parts())@,
            final(final(self).dictionary_part())@ == final(old(self).dictionary_part())@,
    {
        let ghost t = self.table();
        let ghost f = hash_fn(*hasher);
        let ghost d = slots as nat;
        let ghost whole = self.dictionary@.len();
        self.free_head = INVALID_POS;
        self.slots = slots;
        let mut s: usize = 0;
        while s < slots
            invariant
                s <= slots <= whole,
                self.slots == slots,
                self.dictionary@.len() == whole,
                final(self.dictionary)@ == final(old(self).dictionary)@,
                self.keys == old(self).keys,
                self.vals == old(self).vals,
                self.free_head == INVALID_POS,
                self.buckets_in_use == old(self).buckets_in_use,
                forall|j: int| 0 <= j < s ==> #[trigger] self.dictionary@[j] == INVALID_POS,
            decreases slots - s,
        {
            self.dictionary[s] = INVALID_POS;
            s = s + 1;
        }
        let mut i: u32 = 0;
        while i < rehash_buckets
            invariant
                i <= rehash_buckets <= t.buckets.len(),
                t == old(self).table(),
                final(self.keys)@ == final(old(self).keys)@,
                final(self.vals)@ == final(old(self).vals)@,
                final(self.dictionary)@ == final(old(self).dictionary)@,
                f == hash_fn(*hasher),
                d == slots,
                slots == 0 ==> forall|j: int| 0 <= j < rehash_buckets ==> t.vacant(j),
                slots <= whole,
                self.slots == slots,
                self.dictionary@.len() == whole,
                self.keys@.len() == old(self).keys@.len(),
                self.vals == old(self).vals,
                self.buckets_in_use == old(self).buckets_in_use,
                forall|j: int|
                    0 <= j < self.keys@.len() ==> (#[trigger] self.keys@[j]).inner == old(
                        self,
                    ).keys@[j].inner,
                forall|j: int|
                    i <= j < self.keys@.len() ==> #[trigger] self.keys@[j] == old(self).keys@[j],
                forall|s: int|
                    0 <= s < d ==> #[trigger] self.dictionary@[s] == link_at(
                        t.rehashed(f, d, i as nat).chains[s],
                        0,
                    ),
                forall|j: int, s: int, p: int| #[trigger]
                    t.rehashed(f, d, i as nat).linked(j, s, p) ==> self.keys@[j].next == link_at(
                        t.rehashed(f, d, i as nat).chains[s],
                        p + 1,
                    ),
                self.free_head == link_at(t.rehashed(f, d, i as nat).free, 0),
                forall|j: int, p: int| #[trigger]
                    t.rehashed(f, d, i as nat).listed(j, p) ==> self.keys@[j].next == link_at(
                        t.rehashed(f, d, i as nat).free,
                        p + 1,
                    ),
            decreases rehash_buckets - i,
        {
            assert(t.occupied(i as int) <==> self.keys@[i as int].inner is Some);
            assert(t.vacant(i as int) <==> self.keys@[i as int].inner is None);
            let ghost a = t.rehashed(f, d, i as nat);
            let ghost b = t.rehashed(f, d, (i + 1) as nat);
            proof {
                lemma_rehashed_sound(t, f, d, i as nat);
            }
            match &self.keys[i as usize].inner {
                None => {
                    self.keys[i as usize].next = self.free_head;
                    self.free_head = i;
                },
                Some(key) => {
                    let hash: u64 = hasher.hash_key(key);
                    let slot: usize = (hash % slots as u64) as usize;
                    self.keys[i as usize].next = self.dictionary[slot];
                    self.dictionary[slot] = i;
                },
            }
            proof {
                assert forall|j: int, s: int, p: int| #[trigger]
                    b.linked(j, s, p) implies self.keys@[j].next == link_at(b.chains[s], p + 1) by {
                    if b.chains[s] == a.chains[s] {
                        assert(a.linked(j, s, p));
                    } else if p > 0 {
                        assert(a.linked(j, s, p - 1));
                    }
                }
                assert forall|j: int, p: int| #[trigger] b.listed(j, p) implies self.keys@[j].next
                    == link_at(b.free, p + 1) by {
                    if b.free == a.free {
                        assert(a.listed(j, p));
                    } else if p > 0 {
                        assert(a.listed(j, p - 1));
                    }
                }
            }
            i = i + 1;
        }
        proof {
            let u = t.rehashed(f, d, rehash_buckets as nat);
            self.chains@ = u.chains;
            self.free@ = u.free;
            assert(self.table() =~= u);
            lemma_rehashed_sound(t, f, d, rehash_buckets as nat);
            self.lemma_represent();
            if rehash_buckets == t.buckets.len() && slots > 0 {
                lemma_rehashed_wf(t, f, d);
            }
        }
    }
}

} // verus!
