use neon_shmem::hash::layout::{Layout, Part, Parts};

fn sample() -> Parts {
    Parts {
        shared: Part { size: 56, align: 8 },
        key: Part { size: 12, align: 4 },
        value: Part { size: 16, align: 8 },
        slot: Part { size: 4, align: 4 },
    }
}

#[test]
fn carves_an_aligned_area() {
    let l = sample().carve(4096, 256, 3).unwrap();
    assert_eq!(
        l,
        Layout {
            shared: 4096,
            keys: 4152,
            vals: 4192,
            num_buckets: 3,
            dictionary: 4240,
            slots: 28,
            end: 4352,
        }
    );
}

#[test]
fn pads_an_unaligned_area() {
    let l = sample().carve(4097, 256, 2).unwrap();
    assert_eq!(l.shared, 4104);
    assert_eq!(l.keys, 4160);
    assert_eq!(l.vals, 4184);
    assert_eq!(l.dictionary, 4216);
    assert_eq!(l.end, 4353);
    assert_eq!(l.slots, 34);
}

#[test]
fn parts_follow_each_other_without_overlap() {
    let p = sample();
    for base in 4096..4112usize {
        let l = p.carve(base, 300, 3).unwrap();
        assert!(base <= l.shared && l.shared % 8 == 0);
        assert!(l.shared + 56 <= l.keys && l.keys % 4 == 0);
        assert!(l.keys + 3 * 12 <= l.vals && l.vals % 8 == 0);
        assert!(l.vals + 3 * 16 <= l.dictionary && l.dictionary % 4 == 0);
        assert!(l.dictionary + 4 * l.slots <= l.end);
        assert!(l.end < l.dictionary + 4 * (l.slots + 1));
        assert_eq!(l.end, base + 300);
    }
}

#[test]
fn an_area_must_hold_one_dictionary_entry() {
    let p = sample();
    assert_eq!(p.carve(4096, 148, 3).unwrap().slots, 1);
    assert!(p.carve(4096, 147, 3).is_none());
    assert!(p.carve(4096, 0, 0).is_none());
    assert!(p.carve(4096, 1 << 20, u32::MAX).is_none());
}

#[test]
fn an_area_without_buckets_is_all_dictionary() {
    let l = sample().carve(4096, 96, 0).unwrap();
    assert_eq!(l.keys, 4152);
    assert_eq!(l.vals, 4152);
    assert_eq!(l.dictionary, 4152);
    assert_eq!(l.slots, 10);
}

#[test]
fn estimates_sizes() {
    let p = sample();
    assert_eq!(p.checked_estimate(0), Some(1056));
    assert_eq!(p.checked_estimate(1), Some(28 + 7 + 1056));
    assert_eq!(p.checked_estimate(3), Some(84 + 20 + 1056));
    assert_eq!(p.checked_estimate(1000), Some(28000 + 6667 + 1056));
}

#[test]
fn an_estimate_beyond_the_last_address_is_none() {
    let mut p = sample();
    p.key.size = usize::MAX / 2;
    assert!(p.checked_estimate(3).is_none());
    assert!(p.checked_estimate(1).is_some());
}

#[test]
fn the_estimated_size_is_enough() {
    let p = sample();
    for n in 0..50u32 {
        for base in 4096..4104usize {
            assert!(p.carve(base, p.checked_estimate(n).unwrap(), n).is_some());
        }
    }
}

#[test]
fn without_padding_the_dictionary_starts_where_the_buckets_end() {
    let p = sample();
    let l = p.carve(4096, 301, 2).unwrap();
    let buckets_end = l.keys + 2 * 12 + 2 * 16;
    assert_eq!(l.dictionary, buckets_end);
    assert_eq!(l.slots, (l.end - buckets_end) / 4);
    assert_eq!(l.slots, 47);
}
