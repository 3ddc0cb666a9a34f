//! Views into a single entry of a table, which may be occupied or vacant.
use crate::hash::model::{lemma_inserted_wf, Table};
use crate::hash::table::{leads_to, CoreHashMap, FullError, PrevPos};
use vstd::prelude::*;

verus! {

/// The place of a key in a table, found by its hash.
pub enum Entry<'a, 'b, K, V> {
    /// The table holds the key.
    Occupied(OccupiedEntry<'a, 'b, K, V>),
    /// The table does not hold the key.
    Vacant(VacantEntry<'a, 'b, K, V>),
}

/// An occupied bucket of a table.
pub struct OccupiedEntry<'a, 'b, K, V> {
    map: &'b mut CoreHashMap<'a, K, V>,
    prev_pos: PrevPos,
    bucket_pos: u32,
}

/// A key that a table does not hold, and the slot in whose chain it would be.
pub struct VacantEntry<'a, 'b, K, V> {
    map: &'b mut CoreHashMap<'a, K, V>,
    key: K,
    dict_pos: usize,
}

impl<'a, 'b, K, V> OccupiedEntry<'a, 'b, K, V> {
    /// The table.
    pub closed spec fn map(self) -> &'b mut CoreHashMap<'a, K, V> {
        self.map
    }

    /// The table as it is at this moment.
    pub closed spec fn now(self) -> CoreHashMap<'a, K, V> {
        *self.map
    }

    /// What the table holds at this moment.
    pub open spec fn table(self) -> Table<K, V> {
        self.now().table()
    }

    /// The bucket.
    pub closed spec fn pos(self) -> int {
        self.bucket_pos as int
    }

    /// Where the link to the bucket stands.
    pub closed spec fn prev(self) -> PrevPos {
        self.prev_pos
    }

    /// The table is well formed, the bucket is occupied, and the link to it is where the entry
    /// has it, if it has it.
    pub closed spec fn wf(self) -> bool {
        &&& self.map.wf()
        &&& self.table().occupied(self.pos())
        &&& leads_to(self.table(), self.prev_pos, self.pos())
    }

    /// An entry that is dropped leaves the table as the entry had it.
    pub proof fn lemma_dropped(self)
        ensures
            has_resolved(self) ==> *final(self.map()) == self.now(),
            has_resolved(self) ==> final(self.map()).table() == self.table(),
            has_resolved(self) && self.wf() ==> final(self.map()).wf(),
    {
    }

    pub(crate) fn new(
        map: &'b mut CoreHashMap<'a, K, V>,
        prev_pos: PrevPos,
        bucket_pos: u32,
    ) -> (r: Self)
        requires
            old(map).wf(),
            old(map).table().occupied(bucket_pos as int),
            leads_to(old(map).table(), prev_pos, bucket_pos as int),
        ensures
            r.wf(),
            r.now() == *old(map),
            r.pos() == bucket_pos,
            *final(r.map()) == *final(map),
    {
        OccupiedEntry { map, prev_pos, bucket_pos }
    }

    /// The value in the bucket.
    pub fn get(&self) -> (r: &V)
        requires
            self.wf(),
        ensures
            *r == self.table().buckets[self.pos()].unwrap().1,
    {
        self.map.value(self.bucket_pos)
    }

    /// The value in the bucket, to be changed in place.
    pub fn get_mut(&mut self) -> (r: &mut V)
        requires
            old(self).wf(),
        ensures
            *r == old(self).table().buckets[old(self).pos()].unwrap().1,
            final(self).wf(),
            old(self).now().same_shape(final(self).now()),
            final(final(self).now().key_parts())@ == final(old(self).now().key_parts())@,
            final(final(self).now().value_parts())@ == final(old(self).now().value_parts())@,
            final(final(self).now().dictionary_part())@ == final(
                old(self).now().dictionary_part()
            )@,
            final(self).pos() == old(self).pos(),
            final(self).table() == old(self).table().replaced(old(self).pos(), *final(r)),
            *final(final(self).map()) == *final(old(self).map()),
    {
        proof {
            let t = self.table();
            let i = self.pos();
            assert forall|v: V| leads_to(#[trigger] t.replaced(i, v), self.prev_pos, i) by {
                lemma_replaced_leads_to(t, self.prev_pos, i, v);
            }
        }
        self.map.value_mut(self.bucket_pos)
    }

    /// Puts another value into the bucket and hands back the one that was there.
    pub fn insert(&mut self, value: V) -> (r: V)
        requires
            old(self).wf(),
        ensures
            r == old(self).table().buckets[old(self).pos()].unwrap().1,
            final(self).wf(),
            old(self).now().same_shape(final(self).now()),
            final(final(self).now().key_parts())@ == final(old(self).now().key_parts())@,
            final(final(self).now().value_parts())@ == final(old(self).now().value_parts())@,
            final(final(self).now().dictionary_part())@ == final(
                old(self).now().dictionary_part()
            )@,
            final(self).pos() == old(self).pos(),
            final(self).table() == old(self).table().replaced(old(self).pos(), value),
            *final(final(self).map()) == *final(old(self).map()),
    {
        let mut other = value;
        let place = self.get_mut();
        std::mem::swap(place, &mut other);
        other
    }

    /// Removes the entry from the table and hands its value back.
    pub fn remove(self) -> (r: V)
        requires
            self.wf(),
        ensures
            r == self.table().buckets[self.pos()].unwrap().1,
            final(self.map()).wf(),
            self.now().same_shape(*final(self.map())),
            final(final(self.map()).key_parts())@ == final(self.now().key_parts())@,
            final(final(self.map()).value_parts())@ == final(self.now().value_parts())@,
            final(final(self.map()).dictionary_part())@ == final(self.now().dictionary_part())@,
            final(self.map()).table() == self.table().removed(self.pos()),
    {
        self.map.unlink(self.prev_pos, self.bucket_pos)
    }
}

impl<'a, 'b, K, V> VacantEntry<'a, 'b, K, V> {
    /// The table.
    pub closed spec fn map(self) -> &'b mut CoreHashMap<'a, K, V> {
        self.map
    }

    /// The table as it is at this moment.
    pub closed spec fn now(self) -> CoreHashMap<'a, K, V> {
        *self.map
    }

    /// What the table holds at this moment.
    pub open spec fn table(self) -> Table<K, V> {
        self.now().table()
    }

    /// The key.
    pub closed spec fn spec_key(self) -> K {
        self.key
    }

    /// The slot.
    pub closed spec fn slot(self) -> int {
        self.dict_pos as int
    }

    /// The table is well formed and the slot is one of its dictionary.
    pub closed spec fn wf(self) -> bool {
        &&& self.map.wf()
        &&& self.slot() < self.table().chains.len()
    }

    /// An entry that is dropped leaves the table as the entry had it.
    pub proof fn lemma_dropped(self)
        ensures
            has_resolved(self) ==> *final(self.map()) == self.now(),
            has_resolved(self) ==> final(self.map()).table() == self.table(),
            has_resolved(self) && self.wf() ==> final(self.map()).wf(),
    {
    }

    pub(crate) fn new(map: &'b mut CoreHashMap<'a, K, V>, key: K, dict_pos: usize) -> (r: Self)
        requires
            old(map).wf(),
            dict_pos < old(map).table().chains.len(),
        ensures
            r.wf(),
            r.now() == *old(map),
            r.spec_key() == key,
            r.slot() == dict_pos,
            *final(r.map()) == *final(map),
    {
        VacantEntry { map, key, dict_pos }
    }

    /// Puts the key with a value into the first free bucket. Fails, and changes nothing, where
    /// there is none.
    pub fn insert(self, value: V) -> (r: Result<&'b mut V, FullError>)
        requires
            self.wf(),
        ensures
            final(self.map()).wf(),
            self.now().same_shape(*final(self.map())),
            final(final(self.map()).key_parts())@ == final(self.now().key_parts())@,
            final(final(self.map()).value_parts())@ == final(self.now().value_parts())@,
            final(final(self.map()).dictionary_part())@ == final(self.now().dictionary_part())@,
            match r {
                Ok(v) => {
                    &&& self.table().free.len() > 0
                    &&& *v == value
                    &&& final(self.map()).table() == self.table().inserted(
                        self.slot(),
                        self.spec_key(),
                        *final(v),
                    )
                },
                Err(_) => {
                    &&& self.table().free.len() == 0
                    &&& final(self.map()).table() == self.table()
                },
            },
    {
        let ghost t = self.table();
        let ghost s = self.slot();
        proof {
            self.map.lemma_wf();
        }
        let map = self.map;
        match map.insert_in_slot(self.dict_pos, self.key, value) {
            Ok(pos) => {
                proof {
                    let u = t.inserted(s, self.key, value);
                    lemma_inserted_wf(t, s, self.key, value);
                    assert forall|v: V|
                        t.inserted(s, self.key, v) == #[trigger] u.replaced(pos as int, v) by {
                        assert(t.inserted(s, self.key, v) =~= u.replaced(pos as int, v));
                    }
                }
                Ok(map.value_mut(pos))
            },
            Err(e) => Err(e),
        }
    }
}

proof fn lemma_replaced_leads_to<K, V>(t: Table<K, V>, prev: PrevPos, i: int, v: V)
    requires
        t.occupied(i),
        leads_to(t, prev, i),
    ensures
        leads_to(t.replaced(i, v), prev, i),
{
    if let PrevPos::Chained(j) = prev {
        let (s, p) = choose|s: int, p: int|
            t.linked(j as int, s, p) && #[trigger] t.linked(i, s, p + 1);
        assert(t.replaced(i, v).linked(j as int, s, p));
        assert(t.replaced(i, v).linked(i, s, p + 1));
    }
}

} // verus!
