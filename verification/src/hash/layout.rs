//! How an area of memory is carved into the parts of a table.
//!
//! The parts follow each other in the area: the shared header, the key parts of the buckets,
//! their value parts, and the dictionary, which takes what is left. Between two parts there can
//! be padding, so that each part is aligned.
use vstd::prelude::*;

verus! {

/// Bytes that a size estimate adds to cover alignment.
pub const MARGIN: usize = 1000;

/// Size and alignment of the items of a part, in bytes.
#[derive(Debug, Clone, Copy, PartialEq, Eq)]
pub struct Part {
    pub size: usize,
    pub align: usize,
}

/// The items of which the parts of a table consist.
#[derive(Debug, Clone, Copy, PartialEq, Eq)]
pub struct Parts {
    /// The shared header.
    pub shared: Part,
    /// The key part of a bucket.
    pub key: Part,
    /// The value part of a bucket.
    pub value: Part,
    /// An entry of the dictionary.
    pub slot: Part,
}

/// Where the parts of a table stand.
#[derive(Debug, Clone, Copy, PartialEq, Eq)]
pub struct Layout {
    /// Address of the shared header.
    pub shared: usize,
    /// Address of the first key part.
    pub keys: usize,
    /// Address of the first value part.
    pub vals: usize,
    /// How many buckets there are, each with a key part and a value part.
    pub num_buckets: u32,
    /// Address of the dictionary.
    pub dictionary: usize,
    /// How many entries the dictionary has.
    pub slots: usize,
    /// The address at which the area ends.
    pub end: usize,
}

/// The first aligned address from `addr` on.
pub open spec fn aligned_up(addr: int, align: int) -> int {
    if addr % align == 0 {
        addr
    } else {
        addr - addr % align + align
    }
}

impl Parts {
    /// Alignments and the size of a dictionary entry are not zero.
    pub open spec fn valid(self) -> bool {
        &&& self.shared.align > 0
        &&& self.key.align > 0
        &&& self.value.align > 0
        &&& self.slot.align > 0
        &&& self.slot.size > 0
    }

    /// Where the shared header of an area at `base` stands.
    pub open spec fn shared_addr(self, base: int) -> int {
        aligned_up(base, self.shared.align as int)
    }

    /// Where the key parts stand.
    pub open spec fn keys_addr(self, base: int) -> int {
        aligned_up(self.shared_addr(base) + self.shared.size, self.key.align as int)
    }

    /// Where the value parts stand.
    pub open spec fn vals_addr(self, base: int, num_buckets: int) -> int {
        aligned_up(
            self.keys_addr(base) + self.key.size * num_buckets,
            self.value.align as int,
        )
    }

    /// Where the dictionary stands.
    pub open spec fn dictionary_addr(self, base: int, num_buckets: int) -> int {
        aligned_up(
            self.vals_addr(base, num_buckets) + self.value.size * num_buckets,
            self.slot.align as int,
        )
    }

    /// How many dictionary entries fit before the address `end`.
    pub open spec fn slots(self, base: int, num_buckets: int, end: int) -> int {
        (end - self.dictionary_addr(base, num_buckets)) / self.slot.size as int
    }

    /// At least one dictionary entry fits before the address `end`.
    pub open spec fn fits(self, base: int, num_buckets: int, end: int) -> bool {
        self.dictionary_addr(base, num_buckets) + self.slot.size <= end
    }

    /// The bytes of the dictionary in a size estimate: so many that the buckets fill three
    /// fifths of its entries.
    pub open spec fn dictionary_bytes(self, num_buckets: int) -> int {
        (self.slot.size * num_buckets * 5 + 2) / 3
    }

    /// The estimated size of an area for so many buckets.
    pub open spec fn estimate(self, num_buckets: int) -> int {
        (self.key.size + self.value.size) * num_buckets + self.dictionary_bytes(num_buckets)
            + self.shared.size + MARGIN
    }
}

proof fn lemma_product_bound(a: int, b: int)
    by (nonlinear_arith)
    requires
        0 <= a <= 0x2_0000_0000_0000_0000,
        0 <= b <= 0xffff_ffff,
    ensures
        0 <= a * b <= 0x2_0000_0000_0000_0000 * 0xffff_ffff,
{
}

proof fn lemma_mod_bound(a: int, b: int)
    by (nonlinear_arith)
    requires
        a >= 0,
        b > 0,
    ensures
        0 <= a % b < b,
        a % b <= a,
{
}

fn align_up(addr: u128, align: usize) -> (r: u128)
    requires
        align > 0,
        addr <= 0x1000_0000_0000_0000_0000_0000_0000_0000,
    ensures
        r == aligned_up(addr as int, align as int),
        addr <= r < addr + align,
{
    let rest: u128 = addr % align as u128;
    proof {
        lemma_mod_bound(addr as int, align as int);
    }
    if rest == 0 {
        addr
    } else {
        addr - rest + align as u128
    }
}

impl Parts {
    /// Carves an area of `size` bytes at `base` into the parts of a table with `num_buckets`
    /// buckets. There is a layout where at least one dictionary entry fits behind the buckets.
    pub fn carve(&self, base: usize, size: usize, num_buckets: u32) -> (r: Option<Layout>)
        requires
            self.valid(),
            base + size <= usize::MAX,
        ensures
            r is Some <==> self.fits(base as int, num_buckets as int, base + size),
            r matches Some(l) ==> {
                &&& l.shared == self.shared_addr(base as int)
                &&& l.keys == self.keys_addr(base as int)
                &&& l.vals == self.vals_addr(base as int, num_buckets as int)
                &&& l.num_buckets == num_buckets
                &&& l.dictionary == self.dictionary_addr(base as int, num_buckets as int)
                &&& l.slots == self.slots(base as int, num_buckets as int, base + size)
                &&& l.end == base + size
            },
    {
        proof {
            lemma_product_bound(self.key.size as int, num_buckets as int);
            lemma_product_bound(self.value.size as int, num_buckets as int);
        }
        let n: u128 = num_buckets as u128;
        let end: u128 = base as u128 + size as u128;
        let shared: u128 = align_up(base as u128, self.shared.align);
        let keys: u128 = align_up(shared + self.shared.size as u128, self.key.align);
        let vals: u128 = align_up(keys + self.key.size as u128 * n, self.value.align);
        let dictionary: u128 = align_up(vals + self.value.size as u128 * n, self.slot.align);
        if dictionary + self.slot.size as u128 > end {
            return None;
        }
        let slots: u128 = (end - dictionary) / self.slot.size as u128;
        proof {
            let room = end - dictionary;
            let item = self.slot.size as int;
            assert(0 <= room / item <= room) by (nonlinear_arith)
                requires
                    room >= 0,
                    item >= 1,
            ;
        }
        Some(
            Layout {
                shared: shared as usize,
                keys: keys as usize,
                vals: vals as usize,
                num_buckets,
                dictionary: dictionary as usize,
                slots: slots as usize,
                end: end as usize,
            },
        )
    }

    /// The estimated size of an area for so many buckets, if it is an address range at all.
    pub fn checked_estimate(&self, num_buckets: u32) -> (r: Option<usize>)
        ensures
            r is Some <==> self.estimate(num_buckets as int) <= usize::MAX,
            r matches Some(size) ==> size == self.estimate(num_buckets as int),
    {
        proof {
            lemma_product_bound(self.key.size + self.value.size, num_buckets as int);
            lemma_product_bound(self.slot.size as int, num_buckets as int);
        }
        let n: u128 = num_buckets as u128;
        let buckets: u128 = (self.key.size as u128 + self.value.size as u128) * n;
        let dictionary: u128 = (self.slot.size as u128 * n * 5 + 2) / 3;
        let total: u128 = buckets + dictionary + self.shared.size as u128 + MARGIN as u128;
        if total <= usize::MAX as u128 {
            Some(total as usize)
        } else {
            None
        }
    }
}

impl Parts {
    /// Where the parts fit, the dictionary has at least one entry.
    pub proof fn lemma_slots(self, base: int, num_buckets: int, end: int)
        requires
            self.valid(),
            self.fits(base, num_buckets, end),
        ensures
            self.slots(base, num_buckets, end) >= 1,
    {
        let room = end - self.dictionary_addr(base, num_buckets);
        let item = self.slot.size as int;
        assert(room / item >= 1) by (nonlinear_arith)
            requires
                room >= item,
                item >= 1,
        ;
    }

    /// More room does not make the dictionary smaller.
    pub proof fn lemma_slots_monotonic(self, base: int, num_buckets: int, end: int, later: int)
        requires
            self.valid(),
        ensures
            end <= later ==> self.slots(base, num_buckets, end) <= self.slots(
                base,
                num_buckets,
                later,
            ),
    {
        if end <= later {
            let a = end - self.dictionary_addr(base, num_buckets);
            let b = later - self.dictionary_addr(base, num_buckets);
            let item = self.slot.size as int;
            assert(a / item <= b / item) by (nonlinear_arith)
                requires
                    a <= b,
                    item >= 1,
            ;
        }
    }
}

proof fn lemma_aligned_up(addr: int, align: int)
    requires
        align > 0,
    ensures
        aligned_up(addr, align) % align == 0,
        addr <= aligned_up(addr, align) < addr + align,
{
    let rest = addr % align;
    assert(0 <= rest < align) by (nonlinear_arith)
        requires
            align > 0,
            rest == addr % align,
    ;
    if rest != 0 {
        assert((addr - rest + align) % align == 0) by (nonlinear_arith)
            requires
                align > 0,
                rest == addr % align,
        ;
    }
}

impl Parts {
    /// The parts of a layout are aligned, follow each other without overlap, with less padding
    /// between them than one alignment, and stay inside the area, of which the dictionary leaves
    /// less than one entry unused.
    pub proof fn law_layout_parts(self, base: int, num_buckets: int, end: int)
        requires
            self.valid(),
            self.fits(base, num_buckets, end),
        ensures
            ({
                let shared = self.shared_addr(base);
                let keys = self.keys_addr(base);
                let vals = self.vals_addr(base, num_buckets);
                let dictionary = self.dictionary_addr(base, num_buckets);
                let slots = self.slots(base, num_buckets, end);
                &&& shared % (self.shared.align as int) == 0
                &&& keys % (self.key.align as int) == 0
                &&& vals % (self.value.align as int) == 0
                &&& dictionary % (self.slot.align as int) == 0
                &&& 0 <= shared - base < self.shared.align
                &&& 0 <= keys - (shared + self.shared.size) < self.key.align
                &&& 0 <= vals - (keys + self.key.size * num_buckets) < self.value.align
                &&& 0 <= dictionary - (vals + self.value.size * num_buckets) < self.slot.align
                &&& slots >= 1
                &&& 0 <= end - (dictionary + self.slot.size * slots) < self.slot.size
            }),
    {
        self.lemma_slots(base, num_buckets, end);
        lemma_aligned_up(base, self.shared.align as int);
        lemma_aligned_up(self.shared_addr(base) + self.shared.size, self.key.align as int);
        lemma_aligned_up(
            self.keys_addr(base) + self.key.size * num_buckets,
            self.value.align as int,
        );
        lemma_aligned_up(
            self.vals_addr(base, num_buckets) + self.value.size * num_buckets,
            self.slot.align as int,
        );
        let room = end - self.dictionary_addr(base, num_buckets);
        let item = self.slot.size as int;
        assert(0 <= room - item * (room / item) < item) by (nonlinear_arith)
            requires
                item > 0,
        ;
    }

    /// Where no padding stands before the value parts, and so many entries fit behind the padding
    /// before the dictionary, the dictionary has as many entries as there is room for from the
    /// end of the buckets on.
    pub proof fn law_slots_from_buckets_end(self, base: int, num_buckets: int, end: int)
        requires
            self.valid(),
            self.vals_addr(base, num_buckets) == self.keys_addr(base) + self.key.size
                * num_buckets,
            ({
                let buckets_end = self.keys_addr(base) + self.key.size * num_buckets
                    + self.value.size * num_buckets;
                self.dictionary_addr(base, num_buckets) + self.slot.size * ((end - buckets_end)
                    / (self.slot.size as int)) <= end
            }),
        ensures
            ({
                let buckets_end = self.keys_addr(base) + self.key.size * num_buckets
                    + self.value.size * num_buckets;
                self.slots(base, num_buckets, end) == (end - buckets_end) / (self.slot.size as int)
            }),
    {
        let buckets_end = self.keys_addr(base) + self.key.size * num_buckets + self.value.size
            * num_buckets;
        let a = end - self.dictionary_addr(base, num_buckets);
        let b = end - buckets_end;
        let item = self.slot.size as int;
        lemma_aligned_up(buckets_end, self.slot.align as int);
        assert(a / item == b / item) by (nonlinear_arith)
            requires
                a <= b,
                item * (b / item) <= a,
                item > 0,
        ;
    }

    /// An area of the estimated size is large enough wherever it begins, if the padding that the
    /// alignments can take and one dictionary entry fit into the margin and the estimate of the
    /// dictionary.
    pub proof fn law_estimate_is_enough(self, base: int, num_buckets: int)
        requires
            self.valid(),
            self.shared.align + self.key.align + self.value.align + self.slot.align - 4
                + self.slot.size <= MARGIN + self.dictionary_bytes(num_buckets),
        ensures
            self.fits(base, num_buckets, base + self.estimate(num_buckets)),
    {
        lemma_aligned_up(base, self.shared.align as int);
        lemma_aligned_up(self.shared_addr(base) + self.shared.size, self.key.align as int);
        lemma_aligned_up(
            self.keys_addr(base) + self.key.size * num_buckets,
            self.value.align as int,
        );
        lemma_aligned_up(
            self.vals_addr(base, num_buckets) + self.value.size * num_buckets,
            self.slot.align as int,
        );
        let k = self.key.size as int;
        let v = self.value.size as int;
        assert((k + v) * num_buckets == k * num_buckets + v * num_buckets) by (nonlinear_arith);
    }

    /// Parts can be carved out of an area wherever no alignment is zero and a dictionary entry
    /// takes room.
    pub proof fn law_valid(self)
        ensures
            self.valid() <==> self.shared.align > 0 && self.key.align > 0 && self.value.align > 0
                && self.slot.align > 0 && self.slot.size > 0,
    {
    }

    /// Where aligned parts for so many buckets and one dictionary entry can be put one behind the
    /// other before the address `end`, in whatever way, there is a layout.
    pub proof fn law_room_is_used(
        self,
        base: int,
        num_buckets: int,
        end: int,
        shared: int,
        keys: int,
        vals: int,
        dictionary: int,
    )
        requires
            self.valid(),
            base <= shared,
            shared % (self.shared.align as int) == 0,
            shared + self.shared.size <= keys,
            keys % (self.key.align as int) == 0,
            keys + self.key.size * num_buckets <= vals,
            vals % (self.value.align as int) == 0,
            vals + self.value.size * num_buckets <= dictionary,
            dictionary % (self.slot.align as int) == 0,
            dictionary + self.slot.size <= end,
        ensures
            self.fits(base, num_buckets, end),
    {
        lemma_aligned_up_is_first(base, shared, self.shared.align as int);
        lemma_aligned_up_is_first(
            self.shared_addr(base) + self.shared.size,
            keys,
            self.key.align as int,
        );
        lemma_aligned_up_is_first(
            self.keys_addr(base) + self.key.size * num_buckets,
            vals,
            self.value.align as int,
        );
        lemma_aligned_up_is_first(
            self.vals_addr(base, num_buckets) + self.value.size * num_buckets,
            dictionary,
            self.slot.align as int,
        );
    }

    /// A size estimate is made of the header, a key part and a value part for each bucket, a
    /// thousand bytes, and the fewest bytes of which the dictionary entries of the buckets are
    /// three fifths.
    pub proof fn law_estimate_is_exact(self, num_buckets: int)
        ensures
            ({
                let dictionary = self.estimate(num_buckets) - num_buckets * self.key.size
                    - num_buckets * self.value.size - self.shared.size - 1000;
                5 * (num_buckets * self.slot.size) <= 3 * dictionary < 5 * (num_buckets
                    * self.slot.size) + 3
            }),
            5 * (num_buckets * self.slot.size) <= 3 * self.dictionary_bytes(num_buckets) < 5 * (
            num_buckets * self.slot.size) + 3,
    {
        let k = self.key.size as int;
        let v = self.value.size as int;
        let s = self.slot.size as int;
        assert((k + v) * num_buckets == num_buckets * k + num_buckets * v) by (nonlinear_arith);
        assert(s * num_buckets == num_buckets * s) by (nonlinear_arith);
    }

    /// In an area of the estimated size the buckets fill at most three fifths of the dictionary,
    /// wherever the area begins and however many buckets there are, if the padding that the
    /// alignments can take and one dictionary entry fit into the margin.
    pub proof fn law_estimate_keeps_the_fill_factor(self, base: int, num_buckets: int)
        requires
            self.valid(),
            num_buckets >= 0,
            self.shared.align + self.key.align + self.value.align + self.slot.align - 4
                + self.slot.size <= 1000,
        ensures
            self.fits(base, num_buckets, base + self.estimate(num_buckets)),
            5 * num_buckets <= 3 * self.slots(
                base,
                num_buckets,
                base + self.estimate(num_buckets),
            ),
    {
        let k = self.key.size as int;
        let v = self.value.size as int;
        let s = self.slot.size as int;
        let end = base + self.estimate(num_buckets);
        self.law_estimate_is_exact(num_buckets);
        assert(num_buckets * s >= 0) by (nonlinear_arith)
            requires
                num_buckets >= 0,
                s > 0,
        ;
        self.law_estimate_is_enough(base, num_buckets);
        self.law_layout_parts(base, num_buckets, end);
        assert(k * num_buckets == num_buckets * k) by (nonlinear_arith);
        assert(v * num_buckets == num_buckets * v) by (nonlinear_arith);
        let room = end - self.dictionary_addr(base, num_buckets);
        let slots = self.slots(base, num_buckets, end);
        assert(3 * room >= 5 * (num_buckets * s) + 3 * s);
        assert(5 * num_buckets <= 3 * slots) by (nonlinear_arith)
            requires
                3 * room >= 5 * (num_buckets * s) + 3 * s,
                room < s * slots + s,
                s > 0,
        ;
    }
}

/// No aligned address from `addr` on comes before the first one.
proof fn lemma_aligned_up_is_first(addr: int, other: int, align: int)
    requires
        align > 0,
        addr <= other,
        other % align == 0,
    ensures
        aligned_up(addr, align) <= other,
{
    lemma_aligned_up(addr, align);
    let first = aligned_up(addr, align);
    if other < first {
        assert(false) by (nonlinear_arith)
            requires
                align > 0,
                addr <= other < first < addr + align,
                other % align == 0,
                first % align == 0,
        ;
    }
}

} // verus!
