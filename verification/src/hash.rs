//! Hash table on top of an area of shared memory.
//!
//! A table is described by [`HashMapInit`]: how many buckets it has, in which area it will stand,
//! and what hashes its keys. Attaching it to the parts of that area makes an empty table and
//! gives a [`HashMapAccess`], through which it is used. Locking is left to the caller.
use crate::hash::entry::{Entry, OccupiedEntry};
use crate::hash::hasher::{hash_fn, law_hash_fn_is_the_hasher, KeyHasher};
use crate::hash::laws::law_rebuilt_chains;
use crate::hash::layout::{Layout, Part, Parts, MARGIN};
use crate::hash::model::{Links, Table};
use crate::hash::table::{CoreHashMap, LinkedKey};
use rustc_hash::FxBuildHasher;
use std::marker::PhantomData;
use std::mem::MaybeUninit;
use vstd::prelude::*;
use vstd::std_specs::cmp::PartialEqSpec;
use vstd::std_specs::maybe_uninit::MaybeUninitAdditionalSpecFns;

pub mod entry;
pub mod hasher;
pub mod laws;
pub mod layout;
pub mod model;
pub mod table;

verus! {

/// `MaybeUninit::write` puts a value into the place and hands out a reference to it; what the
/// reference holds in the end is what the place holds.
pub assume_specification<T>[ MaybeUninit::<T>::write ](place: &mut MaybeUninit<T>, val: T) -> (r:
    &mut T)
    ensures
        *r == val,
        final(place).as_option() == Some(*final(r)),
;

/// This is stored in the area.
///
/// The parts are carved out of a contiguous chunk, in this order: the header, the buckets, the
/// dictionary. In between there can be padding bytes to align the parts correctly.
pub struct HashMapShared<'a, K, V> {
    inner: CoreHashMap<'a, K, V>,
}

/// A table that has not been attached to its area yet. `H` is the handle by which the area is
/// held.
pub struct HashMapInit<'a, K, V, S = FxBuildHasher, H = ()> {
    shmem_handle: Option<H>,
    shared_addr: usize,
    shared_size: usize,
    hasher: S,
    num_buckets: u32,
    marker: PhantomData<&'a mut HashMapShared<'a, K, V>>,
}

/// Access to a table in its area.
pub struct HashMapAccess<'a, K, V, S = FxBuildHasher, H = ()> {
    shmem_handle: Option<H>,
    shared: &'a mut HashMapShared<'a, K, V>,
    shared_addr: usize,
    layout: Layout,
    hasher: S,
}

/// A named area that has to be made before its table can be described further.
pub struct AreaRequest<'a, K, V> {
    /// How many buckets the table will have.
    pub num_buckets: u32,
    /// The name of the area.
    pub name: String,
    /// Its size in bytes at first.
    pub size: usize,
    /// The size to which it may grow.
    pub max_size: usize,
    /// Stands for the table.
    pub marker: PhantomData<&'a mut HashMapShared<'a, K, V>>,
}

/// The items of which the parts of a table with these keys and values consist.
pub open spec fn spec_parts<'a, K: 'a, V: 'a>() -> Parts {
    Parts {
        shared: Part {
            size: vstd::layout::size_of::<HashMapShared<'a, K, V>>() as usize,
            align: vstd::layout::align_of::<HashMapShared<'a, K, V>>() as usize,
        },
        key: Part {
            size: vstd::layout::size_of::<LinkedKey<K>>() as usize,
            align: vstd::layout::align_of::<LinkedKey<K>>() as usize,
        },
        value: Part {
            size: vstd::layout::size_of::<Option<V>>() as usize,
            align: vstd::layout::align_of::<Option<V>>() as usize,
        },
        slot: Part {
            size: vstd::layout::size_of::<u32>() as usize,
            align: vstd::layout::align_of::<u32>() as usize,
        },
    }
}

fn part_of<T>() -> (r: Part)
    ensures
        r.size == vstd::layout::size_of::<T>() as usize,
        r.size == vstd::layout::size_of::<T>(),
        r.align == vstd::layout::align_of::<T>() as usize,
        r.align == vstd::layout::align_of::<T>(),
        r.align > 0,
{
    vstd::layout::layout_for_type_is_valid::<T>();
    Part { size: std::mem::size_of::<T>(), align: std::mem::align_of::<T>() }
}

/// The items of which the parts of a table with these keys and values consist.
pub fn parts<'a, K: 'a, V: 'a>() -> (r: Parts)
    ensures
        r == spec_parts::<K, V>(),
        r.valid(),
        r.shared.size == vstd::layout::size_of::<HashMapShared<'a, K, V>>(),
        r.shared.align == vstd::layout::align_of::<HashMapShared<'a, K, V>>(),
        r.key.size == vstd::layout::size_of::<LinkedKey<K>>(),
        r.key.align == vstd::layout::align_of::<LinkedKey<K>>(),
        r.value.size == vstd::layout::size_of::<Option<V>>(),
        r.value.align == vstd::layout::align_of::<Option<V>>(),
        r.slot.size == vstd::layout::size_of::<u32>(),
        r.slot.align == vstd::layout::align_of::<u32>(),
{
    Parts {
        shared: part_of::<HashMapShared<'a, K, V>>(),
        key: part_of::<LinkedKey<K>>(),
        value: part_of::<Option<V>>(),
        slot: part_of::<u32>(),
    }
}

/// Each part is made of items of the type that is stored in it.
pub proof fn law_parts_are_of_the_stored_types<'a, K: 'a, V: 'a>()
    ensures
        ({
            let p = spec_parts::<'a, K, V>();
            &&& p.shared.size == vstd::layout::size_of::<HashMapShared<'a, K, V>>() as usize
            &&& p.shared.align == vstd::layout::align_of::<HashMapShared<'a, K, V>>() as usize
            &&& p.key.size == vstd::layout::size_of::<LinkedKey<K>>() as usize
            &&& p.key.align == vstd::layout::align_of::<LinkedKey<K>>() as usize
            &&& p.value.size == vstd::layout::size_of::<Option<V>>() as usize
            &&& p.value.align == vstd::layout::align_of::<Option<V>>() as usize
            &&& p.slot.size == vstd::layout::size_of::<u32>() as usize
            &&& p.slot.align == vstd::layout::align_of::<u32>() as usize
        }),
{
}

impl<'a, K, V, S, H> HashMapInit<'a, K, V, S, H> {
    /// The handle of the area.
    pub closed spec fn handle(self) -> Option<H> {
        self.shmem_handle
    }

    /// The address at which the area begins.
    pub closed spec fn addr(self) -> usize {
        self.shared_addr
    }

    /// The size of the area in bytes.
    pub closed spec fn size(self) -> usize {
        self.shared_size
    }

    /// What hashes the keys.
    pub closed spec fn spec_hasher(self) -> S {
        self.hasher
    }

    /// How many buckets the table will have.
    pub closed spec fn buckets(self) -> u32 {
        self.num_buckets
    }

    /// The area does not reach beyond the last address.
    pub open spec fn wf(self) -> bool {
        self.addr() + self.size() <= usize::MAX
    }

    /// The area is large enough for the buckets and at least one dictionary entry.
    pub open spec fn fits(self) -> bool {
        spec_parts::<K, V>().fits(
            self.addr() as int,
            self.buckets() as int,
            self.addr() + self.size(),
        )
    }

    /// How many entries the dictionary will have.
    pub open spec fn slots(self) -> int {
        spec_parts::<K, V>().slots(
            self.addr() as int,
            self.buckets() as int,
            self.addr() + self.size(),
        )
    }

    /// Has the keys hashed by `hasher`.
    pub fn with_hasher(self, hasher: S) -> (r: HashMapInit<'a, K, V, S, H>)
        ensures
            r.spec_hasher() == hasher,
            r.handle() == self.handle(),
            r.addr() == self.addr(),
            r.size() == self.size(),
            r.buckets() == self.buckets(),
    {
        Self { hasher, ..self }
    }

    /// The size of an area for a table of so many buckets, if there can be such an area.
    pub fn checked_estimate_size(num_buckets: u32) -> (r: Option<usize>)
        ensures
            r is Some <==> spec_parts::<K, V>().estimate(num_buckets as int) <= usize::MAX,
            r matches Some(size) ==> size == spec_parts::<K, V>().estimate(num_buckets as int),
            ({
                let buckets = num_buckets * vstd::layout::size_of::<LinkedKey<K>>() + num_buckets
                    * vstd::layout::size_of::<Option<V>>();
                let header = vstd::layout::size_of::<HashMapShared<'a, K, V>>();
                let dictionary = 5 * (num_buckets * vstd::layout::size_of::<u32>());
                let total = 3 * (buckets + header + 1000) + dictionary;
                match r {
                    Some(size) => total <= 3 * size < total + 3,
                    None => total > 3 * usize::MAX,
                }
            }),
    {
        let p = parts::<K, V>();
        proof {
            p.law_estimate_is_exact(num_buckets as int);
        }
        p.checked_estimate(num_buckets)
    }

    /// The size of an area for a table of so many buckets. It has some margin to cover alignment.
    pub fn estimate_size(num_buckets: u32) -> (r: usize)
        requires
            spec_parts::<K, V>().estimate(num_buckets as int) <= usize::MAX,
        ensures
            r == spec_parts::<K, V>().estimate(num_buckets as int),
            ({
                let buckets = num_buckets * vstd::layout::size_of::<LinkedKey<K>>() + num_buckets
                    * vstd::layout::size_of::<Option<V>>();
                let header = vstd::layout::size_of::<HashMapShared<'a, K, V>>();
                let dictionary = 5 * (num_buckets * vstd::layout::size_of::<u32>());
                let total = 3 * (buckets + header + 1000) + dictionary;
                total <= 3 * r < total + 3
            }),
    {
        Self::checked_estimate_size(num_buckets).unwrap()
    }

    /// Where the parts of the table will stand in the area, if it is large enough.
    pub fn layout(&self) -> (r: Option<Layout>)
        requires
            self.wf(),
        ensures
            r is Some <==> self.fits(),
            r matches Some(l) ==> {
                let base = self.addr() as int;
                let n = self.buckets() as int;
                &&& l.shared == spec_parts::<K, V>().shared_addr(base)
                &&& l.keys == spec_parts::<K, V>().keys_addr(base)
                &&& l.vals == spec_parts::<K, V>().vals_addr(base, n)
                &&& l.num_buckets == n
                &&& l.dictionary == spec_parts::<K, V>().dictionary_addr(base, n)
                &&& l.slots == self.slots()
                &&& l.end == self.addr() + self.size()
                &&& spec_parts::<K, V>().valid()
            },
            r matches Some(l) ==> {
                let header = vstd::layout::size_of::<HashMapShared<'a, K, V>>() as int;
                let header_align = vstd::layout::align_of::<HashMapShared<'a, K, V>>() as int;
                let key = vstd::layout::size_of::<LinkedKey<K>>() as int;
                let key_align = vstd::layout::align_of::<LinkedKey<K>>() as int;
                let value = vstd::layout::size_of::<Option<V>>() as int;
                let value_align = vstd::layout::align_of::<Option<V>>() as int;
                let slot = vstd::layout::size_of::<u32>() as int;
                let slot_align = vstd::layout::align_of::<u32>() as int;
                &&& l.shared as int % header_align == 0
                &&& l.keys as int % key_align == 0
                &&& l.vals as int % value_align == 0
                &&& l.dictionary as int % slot_align == 0
                &&& 0 <= l.shared - self.addr() < header_align
                &&& 0 <= l.keys - (l.shared + header) < key_align
                &&& 0 <= l.vals - (l.keys + key * l.num_buckets) < value_align
                &&& 0 <= l.dictionary - (l.vals + value * l.num_buckets) < slot_align
                &&& 0 <= l.end - (l.dictionary + slot * l.slots) < slot
                &&& l.slots >= 1
            },
    {
        let p = parts::<K, V>();
        proof {
            let base = self.addr() as int;
            let n = self.buckets() as int;
            if self.fits() {
                p.law_layout_parts(base, n, base + self.size());
            }
        }
        p.carve(self.shared_addr, self.shared_size, self.num_buckets)
    }

    /// Makes an empty table in the parts that [`HashMapInit::layout`] has laid out.
    pub fn attach_writer(
        self,
        place: &'a mut MaybeUninit<HashMapShared<'a, K, V>>,
        keys: &'a mut [LinkedKey<K>],
        vals: &'a mut [Option<V>],
        dictionary: &'a mut [u32],
    ) -> (r: HashMapAccess<'a, K, V, S, H>)
        requires
            self.wf(),
            self.fits(),
            old(keys)@.len() == self.buckets(),
            old(vals)@.len() == self.buckets(),
            old(dictionary)@.len() == self.slots(),
        ensures
            r.wf(),
            r.table() == Table::<K, V>::empty(self.buckets() as nat, self.slots() as nat),
            r.spec_hasher() == self.spec_hasher(),
            r.handle() == self.handle(),
            r.addr() == self.addr(),
            r.end() == self.addr() + self.size(),
            ({
                let l = r.spec_layout();
                let base = self.addr() as int;
                let n = self.buckets() as int;
                &&& l.shared == spec_parts::<K, V>().shared_addr(base)
                &&& l.keys == spec_parts::<K, V>().keys_addr(base)
                &&& l.vals == spec_parts::<K, V>().vals_addr(base, n)
                &&& l.num_buckets == n
                &&& l.dictionary == spec_parts::<K, V>().dictionary_addr(base, n)
                &&& l.slots == self.slots()
                &&& l.end == self.addr() + self.size()
            }),
            final(place).as_option() == Some(*final(r.header())),
            final(keys)@ == final(r.key_parts())@,
            final(vals)@ == final(r.value_parts())@,
            final(dictionary)@ == final(r.dictionary_part())@,
    {
        let layout = self.layout().unwrap();
        proof {
            let p = spec_parts::<K, V>();
            let base = self.addr() as int;
            let n = self.buckets() as int;
            p.lemma_slots(base, n, base + self.size());
        }
        let inner = CoreHashMap::new(keys, vals, dictionary);
        let shared = place.write(HashMapShared { inner });
        HashMapAccess {
            shmem_handle: self.shmem_handle,
            shared,
            shared_addr: self.shared_addr,
            layout,
            hasher: self.hasher,
        }
    }

    /// Does what [`HashMapInit::attach_writer`] does.
    pub fn attach_reader(
        self,
        place: &'a mut MaybeUninit<HashMapShared<'a, K, V>>,
        keys: &'a mut [LinkedKey<K>],
        vals: &'a mut [Option<V>],
        dictionary: &'a mut [u32],
    ) -> (r: HashMapAccess<'a, K, V, S, H>)
        requires
            self.wf(),
            self.fits(),
            old(keys)@.len() == self.buckets(),
            old(vals)@.len() == self.buckets(),
            old(dictionary)@.len() == self.slots(),
        ensures
            r.wf(),
            r.table() == Table::<K, V>::empty(self.buckets() as nat, self.slots() as nat),
            r.spec_hasher() == self.spec_hasher(),
            r.handle() == self.handle(),
            r.addr() == self.addr(),
            r.end() == self.addr() + self.size(),
            ({
                let l = r.spec_layout();
                let base = self.addr() as int;
                let n = self.buckets() as int;
                &&& l.shared == spec_parts::<K, V>().shared_addr(base)
                &&& l.keys == spec_parts::<K, V>().keys_addr(base)
                &&& l.vals == spec_parts::<K, V>().vals_addr(base, n)
                &&& l.num_buckets == n
                &&& l.dictionary == spec_parts::<K, V>().dictionary_addr(base, n)
                &&& l.slots == self.slots()
                &&& l.end == self.addr() + self.size()
            }),
            final(place).as_option() == Some(*final(r.header())),
            final(keys)@ == final(r.key_parts())@,
            final(vals)@ == final(r.value_parts())@,
            final(dictionary)@ == final(r.dictionary_part())@,
    {
        self.attach_writer(place, keys, vals, dictionary)
    }

    /// Where a header, the key and value parts of the buckets and one dictionary entry can be put
    /// one behind the other in the area, each aligned, the area is large enough.
    pub proof fn law_room_is_used(self, shared: int, keys: int, vals: int, dictionary: int)
        requires
            spec_parts::<K, V>().valid(),
            ({
                let n = self.buckets() as int;
                let header = vstd::layout::size_of::<HashMapShared<'a, K, V>>() as usize;
                let header_align = vstd::layout::align_of::<HashMapShared<'a, K, V>>() as usize;
                let key = vstd::layout::size_of::<LinkedKey<K>>() as usize;
                let key_align = vstd::layout::align_of::<LinkedKey<K>>() as usize;
                let value = vstd::layout::size_of::<Option<V>>() as usize;
                let value_align = vstd::layout::align_of::<Option<V>>() as usize;
                let slot = vstd::layout::size_of::<u32>() as usize;
                let slot_align = vstd::layout::align_of::<u32>() as usize;
                &&& self.addr() <= shared && shared % (header_align as int) == 0
                &&& shared + header <= keys && keys % (key_align as int) == 0
                &&& keys + key * n <= vals && vals % (value_align as int) == 0
                &&& vals + value * n <= dictionary && dictionary % (slot_align as int) == 0
                &&& dictionary + slot <= self.addr() + self.size()
            }),
        ensures
            self.fits(),
    {
        law_parts_are_of_the_stored_types::<K, V>();
        spec_parts::<K, V>().law_room_is_used(
            self.addr() as int,
            self.buckets() as int,
            self.addr() + self.size(),
            shared,
            keys,
            vals,
            dictionary,
        );
    }

    /// A table in an area of the estimated size has a dictionary of which its buckets fill at most
    /// three fifths, if the padding that the alignments can take and one dictionary entry fit into
    /// a thousand bytes.
    pub proof fn law_estimated_area_keeps_the_fill_factor(self)
        requires
            spec_parts::<K, V>().valid(),
            self.size() == spec_parts::<K, V>().estimate(self.buckets() as int),
            ({
                let header_align = vstd::layout::align_of::<HashMapShared<'a, K, V>>() as usize;
                let key_align = vstd::layout::align_of::<LinkedKey<K>>() as usize;
                let value_align = vstd::layout::align_of::<Option<V>>() as usize;
                let slot_align = vstd::layout::align_of::<u32>() as usize;
                let slot = vstd::layout::size_of::<u32>() as usize;
                header_align + key_align + value_align + slot_align - 4 + slot <= 1000
            }),
        ensures
            self.fits(),
            5 * self.buckets() <= 3 * self.slots(),
    {
        law_parts_are_of_the_stored_types::<K, V>();
        spec_parts::<K, V>().law_estimate_keeps_the_fill_factor(
            self.addr() as int,
            self.buckets() as int,
        );
    }
}

impl<'a, K, V, S, H> HashMapAccess<'a, K, V, S, H> {
    /// The table in the area.
    pub closed spec fn inner(self) -> CoreHashMap<'a, K, V> {
        self.shared.inner
    }

    /// What the table holds.
    pub open spec fn table(self) -> Table<K, V> {
        self.inner().table()
    }

    /// The links in memory.
    pub open spec fn links(self) -> Links {
        self.inner().links()
    }

    /// What hashes the keys.
    pub closed spec fn spec_hasher(self) -> S {
        self.hasher
    }

    /// The handle of the area.
    pub closed spec fn handle(self) -> Option<H> {
        self.shmem_handle
    }

    /// The address at which the area begins.
    pub closed spec fn addr(self) -> usize {
        self.shared_addr
    }

    /// The header of the table, in the area.
    pub closed spec fn header(self) -> &'a mut HashMapShared<'a, K, V> {
        self.shared
    }

    /// The memory of the key parts.
    pub open spec fn key_parts(self) -> &'a mut [LinkedKey<K>] {
        self.inner().key_parts()
    }

    /// The memory of the value parts.
    pub open spec fn value_parts(self) -> &'a mut [Option<V>] {
        self.inner().value_parts()
    }

    /// The memory of the dictionary.
    pub open spec fn dictionary_part(self) -> &'a mut [u32] {
        self.inner().dictionary_part()
    }

    /// Where the parts of the table stand.
    pub closed spec fn spec_layout(self) -> Layout {
        self.layout
    }

    /// The address at which the area ends.
    pub open spec fn end(self) -> usize {
        self.spec_layout().end
    }

    /// The parts of the table stand where the layout of the area puts them, and the dictionary
    /// part reaches to the end of the area.
    pub open spec fn laid_out(self) -> bool {
        let p = spec_parts::<K, V>();
        let base = self.addr() as int;
        let n = self.table().buckets.len() as int;
        &&& p.valid()
        &&& self.spec_layout().vals == p.vals_addr(base, n)
        &&& self.spec_layout().dictionary == p.dictionary_addr(base, n)
        &&& p.fits(base, n, self.end() as int)
        &&& self.dictionary_part()@.len() == p.slots(base, n, self.end() as int)
    }

    /// What holds between two operations: the table is well formed and laid out in its area.
    pub open spec fn wf(self) -> bool {
        &&& self.inner().wf()
        &&& self.laid_out()
    }
}

impl<'a, K, V, H> HashMapInit<'a, K, V, FxBuildHasher, H> {
    /// A table in an area of fixed size, which begins at the address `area_addr`.
    pub fn with_fixed(num_buckets: u32, area_addr: usize, area_len: usize) -> (r: Self)
        requires
            area_addr + area_len <= usize::MAX,
        ensures
            r.wf(),
            r.handle() is None,
            r.addr() == area_addr,
            r.size() == area_len,
            r.buckets() == num_buckets,
    {
        HashMapInit {
            shmem_handle: None,
            shared_addr: area_addr,
            shared_size: area_len,
            hasher: FxBuildHasher::default(),
            num_buckets,
            marker: PhantomData,
        }
    }

    /// A table in the shared memory area of a handle, which has been set to the estimated size
    /// for so many buckets and begins at the address `data_addr`.
    pub fn with_shmem(num_buckets: u32, shmem: H, data_addr: usize) -> (r: Self)
        requires
            data_addr + spec_parts::<K, V>().estimate(num_buckets as int) <= usize::MAX,
        ensures
            r.wf(),
            r.handle() == Some(shmem),
            r.addr() == data_addr,
            r.size() == spec_parts::<K, V>().estimate(num_buckets as int),
            r.buckets() == num_buckets,
    {
        let size: usize = Self::estimate_size(num_buckets);
        HashMapInit {
            shmem_handle: Some(shmem),
            shared_addr: data_addr,
            shared_size: size,
            hasher: FxBuildHasher::default(),
            num_buckets,
            marker: PhantomData,
        }
    }

    /// Asks for a named area for a table with `num_buckets` buckets that may grow to
    /// `max_buckets`.
    pub fn new_resizeable_named(num_buckets: u32, max_buckets: u32, name: &str) -> (r: AreaRequest<
        'a,
        K,
        V,
    >)
        requires
            spec_parts::<K, V>().estimate(num_buckets as int) <= usize::MAX,
            spec_parts::<K, V>().estimate(max_buckets as int) <= usize::MAX,
        ensures
            r.num_buckets == num_buckets,
            r.name@ == name@,
            r.size == spec_parts::<K, V>().estimate(num_buckets as int),
            r.max_size == spec_parts::<K, V>().estimate(max_buckets as int),
    {
        let size: usize = Self::estimate_size(num_buckets);
        let max_size: usize = Self::estimate_size(max_buckets);
        AreaRequest { num_buckets, name: name.to_owned(), size, max_size, marker: PhantomData }
    }

    /// Asks for an area as [`HashMapInit::new_resizeable_named`] does, under a name that is the
    /// same for every such table.
    pub fn new_resizeable(num_buckets: u32, max_buckets: u32) -> (r: AreaRequest<'a, K, V>)
        requires
            spec_parts::<K, V>().estimate(num_buckets as int) <= usize::MAX,
            spec_parts::<K, V>().estimate(max_buckets as int) <= usize::MAX,
        ensures
            r.num_buckets == num_buckets,
            r.name@ == "neon_shmem_hmap0"@,
            r.size == spec_parts::<K, V>().estimate(num_buckets as int),
            r.max_size == spec_parts::<K, V>().estimate(max_buckets as int),
    {
        Self::new_resizeable_named(num_buckets, max_buckets, "neon_shmem_hmap0")
    }
}

impl<'a, K, V> AreaRequest<'a, K, V> {
    /// The table in the area that was made for it, which is held by `shmem` and begins at the
    /// address `data_addr`.
    pub fn in_area<H>(self, shmem: H, data_addr: usize) -> (r: HashMapInit<
        'a,
        K,
        V,
        FxBuildHasher,
        H,
    >)
        requires
            data_addr + self.size <= usize::MAX,
        ensures
            r.wf(),
            r.handle() == Some(shmem),
            r.addr() == data_addr,
            r.size() == self.size,
            r.buckets() == self.num_buckets,
    {
        HashMapInit {
            shmem_handle: Some(shmem),
            shared_addr: data_addr,
            shared_size: self.size,
            hasher: FxBuildHasher::default(),
            num_buckets: self.num_buckets,
            marker: PhantomData,
        }
    }
}

impl<'a, K, V, S, H> HashMapAccess<'a, K, V, S, H> {
    /// Everything but what the table holds is the same as in `other`.
    pub open spec fn same_area(self, other: Self) -> bool {
        &&& self.spec_hasher() == other.spec_hasher()
        &&& self.handle() == other.handle()
        &&& self.addr() == other.addr()
        &&& self.spec_layout() == other.spec_layout()
    }

    /// The address at which the value parts begin.
    pub open spec fn vals_addr(self) -> int {
        spec_parts::<K, V>().vals_addr(self.addr() as int, self.table().buckets.len() as int)
    }

    /// The index of the address `val_addr` in the value parts, taken as an array of values.
    pub open spec fn value_index(self, val_addr: int) -> int {
        (val_addr - self.vals_addr()) / (vstd::layout::size_of::<V>() as int)
    }

    /// The address up to which the dictionary reaches once it has been rebuilt: the area is
    /// taken to have its estimated size, as far as it reaches.
    pub open spec fn shuffle_end(self) -> int {
        let estimated = self.addr() + spec_parts::<K, V>().estimate(
            self.table().buckets.len() as int,
        );
        if estimated <= self.end() {
            estimated
        } else {
            self.end() as int
        }
    }

    /// The rebuilt dictionary has at least one entry.
    pub open spec fn shuffle_fits(self) -> bool {
        spec_parts::<K, V>().fits(
            self.addr() as int,
            self.table().buckets.len() as int,
            self.shuffle_end(),
        )
    }

    /// How many entries a dictionary has that reaches up to the address `end`.
    pub open spec fn slots_up_to(self, end: int) -> int {
        spec_parts::<K, V>().slots(self.addr() as int, self.table().buckets.len() as int, end)
    }

    /// The model of a table between two operations is well formed, and the links in memory are
    /// those of the model.
    pub proof fn lemma_wf(self)
        requires
            self.wf(),
        ensures
            self.table().wf(),
            self.table().buckets.len() <= u32::MAX,
            self.links().represent(self.table()),
    {
        self.inner().lemma_wf();
    }

    /// In an area that is not larger than its estimated size the dictionary can be rebuilt, and
    /// then takes all the room that the area has for it.
    pub proof fn law_shuffle_in_small_area(self)
        requires
            self.wf(),
            self.end() <= self.addr() + spec_parts::<K, V>().estimate(
                self.table().buckets.len() as int,
            ),
        ensures
            self.shuffle_fits(),
            self.slots_up_to(self.shuffle_end()) == self.dictionary_part()@.len(),
    {
    }

    /// In an area of any size the dictionary can be rebuilt, if the padding that the alignments can
    /// take and one dictionary entry fit into what a size estimate holds for them.
    pub proof fn law_shuffle_in_any_area(self)
        requires
            self.wf(),
            ({
                let p = spec_parts::<K, V>();
                p.shared.align + p.key.align + p.value.align + p.slot.align - 4 + p.slot.size
                    <= MARGIN + p.dictionary_bytes(self.table().buckets.len() as int)
            }),
        ensures
            self.shuffle_fits(),
    {
        spec_parts::<K, V>().law_estimate_is_enough(
            self.addr() as int,
            self.table().buckets.len() as int,
        );
    }

    /// A dictionary that reaches up to an address inside the area stands behind the value parts
    /// and does not leave the area.
    pub proof fn law_dictionary_in_area(self, end: int)
        requires
            self.laid_out(),
            spec_parts::<K, V>().dictionary_addr(
                self.addr() as int,
                self.table().buckets.len() as int,
            ) <= end <= self.end(),
        ensures
            ({
                let p = spec_parts::<K, V>();
                let n = self.table().buckets.len() as int;
                let slots = self.slots_up_to(end);
                &&& 0 <= slots <= self.dictionary_part()@.len()
                &&& self.vals_addr() + p.value.size * n <= self.spec_layout().dictionary
                &&& self.spec_layout().dictionary + p.slot.size * slots <= end
                &&& end < self.spec_layout().dictionary + p.slot.size * slots + p.slot.size
            }),
    {
        let p = spec_parts::<K, V>();
        let base = self.addr() as int;
        let n = self.table().buckets.len() as int;
        p.law_layout_parts(base, n, self.end() as int);
        p.lemma_slots_monotonic(base, n, end, self.end() as int);
        let room = end - p.dictionary_addr(base, n);
        let item = p.slot.size as int;
        assert(0 <= room / item && 0 <= room - item * (room / item) < item) by (nonlinear_arith)
            requires
                room >= 0,
                item > 0,
        ;
    }

    /// The dictionary is rebuilt up to the estimated size of the area or to its end, whichever
    /// comes first, and leaves less than one entry of that room unused. The estimated size is that
    /// of the header, of a key part and a value part for each bucket, of a thousand bytes, and of
    /// a dictionary of which the buckets fill three fifths.
    pub proof fn law_shuffle_takes_the_estimated_size(self, estimated: int)
        requires
            self.wf(),
            ({
                let n = self.table().buckets.len() as int;
                let header = vstd::layout::size_of::<HashMapShared<'a, K, V>>() as usize;
                let key = vstd::layout::size_of::<LinkedKey<K>>() as usize;
                let value = vstd::layout::size_of::<Option<V>>() as usize;
                let slot = vstd::layout::size_of::<u32>() as usize;
                let total = 3 * (n * key + n * value + header + 1000) + 5 * (n * slot);
                total <= 3 * estimated < total + 3
            }),
        ensures
            ({
                let dictionary = self.spec_layout().dictionary;
                let slot = vstd::layout::size_of::<u32>() as usize;
                let end = if self.addr() + estimated <= self.spec_layout().end {
                    self.addr() + estimated
                } else {
                    self.spec_layout().end as int
                };
                let slots = self.slots_up_to(self.shuffle_end());
                &&& self.shuffle_end() == end
                &&& self.shuffle_fits() <==> dictionary + slot <= end
                &&& self.shuffle_fits() ==> slots >= 1 && 0 <= end - (dictionary + slot * slots)
                    < slot
            }),
    {
        let p = spec_parts::<K, V>();
        let base = self.addr() as int;
        let n = self.table().buckets.len() as int;
        law_parts_are_of_the_stored_types::<K, V>();
        p.law_estimate_is_exact(n);
        if self.shuffle_fits() {
            p.law_layout_parts(base, n, self.shuffle_end());
        }
    }

    /// The address of a byte of the `i`-th value is taken for bucket `i` where a value part is as
    /// large as a value: `i` value parts stand between the first one and it.
    pub proof fn law_value_address_gives_its_bucket(self, i: int, offset: int)
        requires
            self.wf(),
            0 <= i < self.table().buckets.len(),
            vstd::layout::size_of::<V>() == vstd::layout::size_of::<Option<V>>(),
            0 <= offset < vstd::layout::size_of::<V>(),
        ensures
            ({
                let size = vstd::layout::size_of::<V>() as int;
                let addr = self.spec_layout().vals + i * size + offset;
                self.holds_address(addr) && self.value_index(addr) == i
            }),
    {
        let addr = self.spec_layout().vals + i * (vstd::layout::size_of::<V>() as int) + offset;
        self.law_value_addresses(addr);
        let size = vstd::layout::size_of::<V>() as int;
        let n = self.table().buckets.len() as int;
        assert(0 <= i * size && i * size + size <= n * size) by (nonlinear_arith)
            requires
                0 <= i < n,
                size > 0,
        ;
        let found = self.value_index(addr);
        assert(found == i) by (nonlinear_arith)
            requires
                found * size <= i * size + offset < found * size + size,
                0 <= offset < size,
        ;
    }

    /// The addresses that are taken for a bucket are those of so many values, one behind the
    /// other, from the first value part on, and each is taken for the value in which it lies.
    pub proof fn law_value_addresses(self, addr: int)
        requires
            self.wf(),
        ensures
            ({
                let vals = self.spec_layout().vals as int;
                let size = vstd::layout::size_of::<V>() as int;
                let n = self.table().buckets.len() as int;
                let found = self.value_index(addr);
                &&& self.holds_address(addr) <==> size > 0 && vals <= addr < vals + n * size
                &&& self.holds_address(addr) ==> 0 <= found < n && vals + found * size <= addr
                    < vals + found * size + size
            }),
    {
        let size = vstd::layout::size_of::<V>() as int;
        let n = self.table().buckets.len() as int;
        let a = addr - self.spec_layout().vals;
        if size > 0 {
            assert(a / size < n <==> a < n * size) by (nonlinear_arith)
                requires
                    size > 0,
            ;
            assert((a / size) * size <= a < (a / size) * size + size) by (nonlinear_arith)
                requires
                    size > 0,
            ;
            assert(a >= 0 ==> a / size >= 0) by (nonlinear_arith)
                requires
                    size > 0,
            ;
        }
    }

    /// Bucket `i` holds the key of the `i`-th key part and the value of the `i`-th value part, and
    /// nothing where these are empty.
    pub proof fn law_buckets_are_in_their_parts(self, i: int)
        requires
            self.wf(),
            0 <= i < self.table().buckets.len(),
        ensures
            self.key_parts()@.len() == self.table().buckets.len(),
            self.value_parts()@.len() == self.table().buckets.len(),
            match self.table().buckets[i] {
                Some(kv) => {
                    &&& self.key_parts()@[i].holds() == Some(kv.0)
                    &&& self.value_parts()@[i] == Some(kv.1)
                },
                None => {
                    &&& self.key_parts()@[i].holds() is None
                    &&& self.value_parts()@[i] is None
                },
            },
    {
        self.inner().lemma_wf();
        self.inner().lemma_parts();
    }

    /// Two tables in the same area differ in nothing but what they hold.
    pub proof fn law_same_area(self, other: Self)
        requires
            self.same_area(other),
        ensures
            self.spec_hasher() == other.spec_hasher(),
            self.handle() == other.handle(),
            self.addr() == other.addr(),
            self.spec_layout() == other.spec_layout(),
    {
    }

    /// The value parts of a table begin, and its area ends, where its layout has it.
    pub proof fn law_layout_has_the_addresses(self)
        requires
            self.wf(),
        ensures
            self.vals_addr() == self.spec_layout().vals,
            self.end() == self.spec_layout().end,
    {
    }

    /// An address `offset` bytes into the value part of bucket `i` is taken for that bucket if
    /// and only if it lies in the `i`-th value of an array of values. It does for every bucket
    /// and every address inside its value part where a value part is as large as a value.
    pub proof fn law_bucket_of_value_address(self, i: int, offset: int)
        requires
            i >= 0,
            vstd::layout::size_of::<V>() > 0,
        ensures
            ({
                let size = vstd::layout::size_of::<V>() as int;
                let stride = vstd::layout::size_of::<Option<V>>() as int;
                let found = self.value_index(self.vals_addr() + i * stride + offset);
                &&& found == i <==> i * size <= i * stride + offset < (i + 1) * size
                &&& stride == size && 0 <= offset < stride ==> found == i
            }),
    {
        let size = vstd::layout::size_of::<V>() as int;
        let stride = vstd::layout::size_of::<Option<V>>() as int;
        let a = i * stride + offset;
        assert(a / size == i <==> i * size <= a < (i + 1) * size) by (nonlinear_arith)
            requires
                size > 0,
        ;
        if stride == size && 0 <= offset < stride {
            assert((i + 1) * size == i * size + size) by (nonlinear_arith);
        }
    }

    /// How many buckets there are.
    pub fn get_num_buckets(&self) -> (r: usize)
        requires
            self.wf(),
        ensures
            r == self.table().buckets.len(),
    {
        self.shared.inner.get_num_buckets()
    }

    /// How many buckets are occupied.
    pub fn get_num_buckets_in_use(&self) -> (r: usize)
        requires
            self.wf(),
        ensures
            r == self.table().in_use(),
    {
        self.shared.inner.get_num_buckets_in_use()
    }

    /// The key and value stored in the bucket with the given index. This can be used to iterate
    /// through the table.
    pub fn get_at_bucket(&self, pos: usize) -> (r: Option<(&K, &V)>)
        requires
            self.wf(),
        ensures
            r is Some <==> self.table().occupied(pos as int),
            r matches Some(kv) ==> self.table().buckets[pos as int] == Some((*kv.0, *kv.1)),
    {
        self.shared.inner.get_at_bucket(pos)
    }

    /// The entry in the bucket with the given index.
    pub fn entry_at_bucket(&mut self, pos: usize) -> (r: Option<OccupiedEntry<'a, '_, K, V>>)
        requires
            old(self).wf(),
        ensures
            r is Some <==> old(self).table().occupied(pos as int),
            final(self).same_area(*old(self)),
            *final(final(self).header()) == *final(old(self).header()),
            has_resolved(r) ==> final(self).inner() == old(self).inner() && final(self).wf(),
            match r {
                Some(e) => {
                    &&& e.pos() == pos
                    &&& e.wf()
                    &&& e.now() == old(self).inner()
                    &&& final(self).inner() == *final(e.map())
                    &&& final(e.map()).wf() && e.now().same_shape(*final(e.map()))
                        ==> final(self).wf()
                },
                None => {
                    &&& final(self).inner() == old(self).inner()
                    &&& final(self).wf()
                },
            },
    {
        let r = self.shared.inner.entry_at_bucket(pos);
        proof {
            r->Some_0.lemma_dropped();
        }
        r
    }
}

impl<'a, K, V, S, H> HashMapAccess<'a, K, V, S, H> {
    /// The value at the address `val_addr` is in the value parts, taken as an array of values.
    pub open spec fn holds_address(self, val_addr: int) -> bool {
        &&& vstd::layout::size_of::<V>() > 0
        &&& val_addr >= self.vals_addr()
        &&& self.value_index(val_addr) < self.table().buckets.len()
    }

    /// The bucket whose value has the address `val_addr`, if it is the address of one.
    pub fn checked_bucket_for_value(&self, val_addr: usize) -> (r: Option<usize>)
        requires
            self.wf(),
        ensures
            r is Some <==> self.holds_address(val_addr as int),
            r matches Some(i) ==> i == self.value_index(val_addr as int),
            ({
                let vals = self.spec_layout().vals as int;
                let size = vstd::layout::size_of::<V>() as int;
                let n = self.table().buckets.len() as int;
                match r {
                    Some(i) => i < n && vals + i * size <= val_addr < vals + i * size + size,
                    None => size == 0 || val_addr < vals || val_addr >= vals + n * size,
                }
            }),
    {
        proof {
            self.law_value_addresses(val_addr as int);
        }
        let origin: usize = self.layout.vals;
        let size: usize = std::mem::size_of::<V>();
        if size == 0 || val_addr < origin {
            return None;
        }
        let i: usize = (val_addr - origin) / size;
        if i < self.get_num_buckets() {
            Some(i)
        } else {
            None
        }
    }

    /// The bucket whose value has the address `val_addr`, taking the value parts as an array of
    /// values.
    pub fn get_bucket_for_value(&self, val_addr: usize) -> (r: usize)
        requires
            self.wf(),
            self.holds_address(val_addr as int),
        ensures
            r == self.value_index(val_addr as int),
            ({
                let vals = self.spec_layout().vals as int;
                let size = vstd::layout::size_of::<V>() as int;
                let n = self.table().buckets.len() as int;
                r < n && vals + r * size <= val_addr < vals + r * size + size
            }),
    {
        self.checked_bucket_for_value(val_addr).unwrap()
    }

    /// Removes every entry.
    pub fn clear(&mut self)
        requires
            old(self).wf(),
        ensures
            final(self).wf(),
            final(self).same_area(*old(self)),
            final(self).table() == Table::<K, V>::empty(
                old(self).table().buckets.len(),
                old(self).table().chains.len(),
            ),
            *final(final(self).header()) == *final(old(self).header()),
            final(final(self).key_parts())@ == final(old(self).key_parts())@,
            final(final(self).value_parts())@ == final(old(self).value_parts())@,
            final(final(self).dictionary_part())@ == final(old(self).dictionary_part())@,
    {
        self.shared.inner.clear();
    }
}

impl<'a, K, V, S: KeyHasher<K>, H> HashMapAccess<'a, K, V, S, H> {
    /// The hash of a key.
    pub fn get_hash_value(&self, key: &K) -> (r: u64)
        ensures
            r == self.spec_hasher().spec_hash(key),
    {
        self.hasher.hash_key(key)
    }

    /// The address up to which the dictionary reaches once it has been rebuilt.
    fn rebuilt_end(&self) -> (r: usize)
        requires
            self.wf(),
        ensures
            r == self.shuffle_end(),
    {
        proof {
            self.lemma_wf();
        }
        let end: usize = self.layout.end;
        match parts::<K, V>().checked_estimate(self.get_num_buckets() as u32) {
            Some(size) => if size <= end && self.shared_addr <= end - size {
                self.shared_addr + size
            } else {
                end
            },
            None => end,
        }
    }

    /// Whether the dictionary, rebuilt for an area of the estimated size, has an entry at all.
    pub fn can_shuffle(&self) -> (r: bool)
        requires
            self.wf(),
        ensures
            r == self.shuffle_fits(),
    {
        let end: usize = self.rebuilt_end();
        let dictionary: usize = self.layout.dictionary;
        dictionary <= end && parts::<K, V>().slot.size <= end - dictionary
    }

    /// Builds the dictionary anew, up to the address `end`, and hangs the first `rehash_buckets`
    /// buckets into it. Growing and shrinking a table differ only in how many buckets these are.
    /// The links that were there before do not matter.
    fn rehash_dict(&mut self, end: usize, rehash_buckets: u32)
        requires
            old(self).laid_out(),
            old(self).spec_layout().dictionary <= end <= old(self).end(),
            rehash_buckets <= old(self).table().buckets.len(),
            old(self).slots_up_to(end as int) == 0 ==> forall|i: int|
                0 <= i < rehash_buckets ==> old(self).table().vacant(i),
        ensures
            final(self).laid_out(),
            final(self).same_area(*old(self)),
            final(self).table() == old(self).table().rehashed(
                hash_fn(old(self).spec_hasher()),
                old(self).slots_up_to(end as int) as nat,
                rehash_buckets as nat,
            ),
            final(self).links().represent(final(self).table()),
            forall|i: int|
                rehash_buckets <= i < old(self).table().buckets.len()
                    ==> #[trigger] final(self).links().nexts[i] == old(self).links().nexts[i],
            final(self).key_parts()@.len() == old(self).key_parts()@.len(),
            forall|i: int| #![trigger final(self).key_parts()@[i]]
                0 <= i < old(self).key_parts()@.len() ==> final(self).key_parts()@[i].holds()
                    == old(self).key_parts()@[i].holds(),
            final(self).value_parts()@ == old(self).value_parts()@,
            final(self).inner().count() == old(self).inner().count(),
            final(self).spec_layout().dictionary + spec_parts::<K, V>().slot.size * final(
                self
            ).links().heads.len() <= end,
            old(self).inner().counted() && old(self).slots_up_to(end as int) > 0 && rehash_buckets
                == old(self).table().buckets.len() ==> final(self).wf(),
            *final(final(self).header()) == *final(old(self).header()),
            final(final(self).key_parts())@ == final(old(self).key_parts())@,
            final(final(self).value_parts())@ == final(old(self).value_parts())@,
            final(final(self).dictionary_part())@ == final(old(self).dictionary_part())@,
    {
        proof {
            self.law_dictionary_in_area(end as int);
        }
        let item: usize = parts::<K, V>().slot.size;
        let slots: usize = (end - self.layout.dictionary) / item;
        self.shared.inner.rehash(&self.hasher, slots, rehash_buckets);
    }

    /// Hangs every bucket anew into the chain that its key's hash selects. Intended for
    /// benchmarking only.
    pub fn shuffle(&mut self)
        requires
            old(self).wf(),
            old(self).shuffle_fits(),
        ensures
            final(self).wf(),
            final(self).same_area(*old(self)),
            final(self).table() == old(self).table().rehashed(
                hash_fn(old(self).spec_hasher()),
                old(self).slots_up_to(old(self).shuffle_end()) as nat,
                old(self).table().buckets.len(),
            ),
            final(self).table().buckets == old(self).table().buckets,
            forall|s: int, i: int| #![trigger final(self).table().chains[s].contains(i)]
                0 <= s < final(self).table().chains.len() ==> (final(
                    self
                ).table().chains[s].contains(i) <==> {
                    &&& 0 <= i < old(self).table().buckets.len()
                    &&& old(self).table().buckets[i] is Some
                    &&& old(self).spec_hasher().spec_hash(
                        &old(self).table().buckets[i].unwrap().0,
                    ) as int % final(self).table().chains.len() as int == s
                }),
            final(self).spec_layout().dictionary + spec_parts::<K, V>().slot.size * final(
                self
            ).table().chains.len() <= final(self).end(),
            *final(final(self).header()) == *final(old(self).header()),
            final(final(self).key_parts())@ == final(old(self).key_parts())@,
            final(final(self).value_parts())@ == final(old(self).value_parts())@,
            final(final(self).dictionary_part())@ == final(old(self).dictionary_part())@,
    {
        proof {
            self.lemma_wf();
            self.inner().lemma_wf();
            spec_parts::<K, V>().lemma_slots(
                self.addr() as int,
                self.table().buckets.len() as int,
                self.shuffle_end(),
            );
        }
        let num_buckets: u32 = self.get_num_buckets() as u32;
        let end: usize = self.rebuilt_end();
        let ghost before = *self;
        self.rehash_dict(end, num_buckets);
        proof {
            let t = before.table();
            let f = hash_fn::<K, S>(before.spec_hasher());
            let slots = self.table().chains.len();
            assert forall|s: int, i: int| #![trigger self.table().chains[s].contains(i)]
                0 <= s < slots implies (self.table().chains[s].contains(i) <==> {
                &&& 0 <= i < t.buckets.len()
                &&& t.buckets[i] is Some
                &&& before.spec_hasher().spec_hash(&t.buckets[i].unwrap().0) as int % slots as int
                    == s
            }) by {
                law_rebuilt_chains(t, f, slots, t.buckets.len(), s, i);
                law_hash_fn_is_the_hasher(before.spec_hasher(), t.buckets[i].unwrap().0);
            }
        }
    }
}

impl<'a, K: Eq, V, S, H> HashMapAccess<'a, K, V, S, H> {
    /// The value that is found for `key` under `hash`.
    pub fn get_with_hash(&self, key: &K, hash: u64) -> (r: Option<&V>)
        requires
            self.wf(),
            K::obeys_eq_spec(),
        ensures
            r is Some <==> self.table().get(*key, hash) is Some,
            r matches Some(v) ==> self.table().get(*key, hash) == Some(*v),
    {
        self.shared.inner.get_with_hash(key, hash)
    }

    /// The place of `key` in the chain of `hash`.
    pub fn entry_with_hash(&mut self, key: K, hash: u64) -> (r: Entry<'a, '_, K, V>)
        requires
            old(self).wf(),
            K::obeys_eq_spec(),
        ensures
            final(self).same_area(*old(self)),
            *final(final(self).header()) == *final(old(self).header()),
            has_resolved(r) ==> final(self).inner() == old(self).inner() && final(self).wf(),
            match r {
                Entry::Occupied(e) => {
                    &&& old(self).table().lookup(key, hash) == Some(e.pos())
                    &&& e.wf()
                    &&& e.now() == old(self).inner()
                    &&& final(self).inner() == *final(e.map())
                    &&& final(e.map()).wf() && e.now().same_shape(*final(e.map()))
                        ==> final(self).wf()
                },
                Entry::Vacant(e) => {
                    &&& old(self).table().lookup(key, hash) is None
                    &&& e.wf()
                    &&& e.now() == old(self).inner()
                    &&& e.spec_key() == key
                    &&& e.slot() == old(self).table().slot(hash)
                    &&& final(self).inner() == *final(e.map())
                    &&& final(e.map()).wf() && e.now().same_shape(*final(e.map()))
                        ==> final(self).wf()
                },
            },
    {
        let r = self.shared.inner.entry_with_hash(key, hash);
        proof {
            r->Occupied_0.lemma_dropped();
            r->Vacant_0.lemma_dropped();
        }
        r
    }

    /// Removes the entry that is found for `key` under `hash`, if there is one.
    pub fn remove_with_hash(&mut self, key: &K, hash: u64)
        requires
            old(self).wf(),
            K::obeys_eq_spec(),
        ensures
            final(self).wf(),
            final(self).same_area(*old(self)),
            final(self).table() == (match old(self).table().lookup(*key, hash) {
                Some(i) => old(self).table().removed(i),
                None => old(self).table(),
            }),
            *final(final(self).header()) == *final(old(self).header()),
            final(final(self).key_parts())@ == final(old(self).key_parts())@,
            final(final(self).value_parts())@ == final(old(self).value_parts())@,
            final(final(self).dictionary_part())@ == final(old(self).dictionary_part())@,
    {
        self.shared.inner.remove_with_hash(key, hash);
    }
}

} // verus!
