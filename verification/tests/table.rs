use std::hash::BuildHasher;
use std::mem::MaybeUninit;

use neon_shmem::hash::entry::Entry;
use neon_shmem::hash::hasher::KeyHasher;
use neon_shmem::hash::table::{FullError, LinkedKey};
use neon_shmem::hash::{parts, HashMapAccess, HashMapInit};
use rustc_hash::FxBuildHasher;

type Init<K, V> = HashMapInit<'static, K, V>;
type Access<K, V> = HashMapAccess<'static, K, V>;

fn filled<T>(len: usize, item: fn() -> T) -> &'static mut [T] {
    let mut items = Vec::new();
    for _ in 0..len {
        items.push(item());
    }
    Box::leak(items.into_boxed_slice())
}

fn attach<K, V>(init: Init<K, V>) -> Access<K, V> {
    let l = init.layout().unwrap();
    let n = l.num_buckets as usize;
    init.attach_writer(
        Box::leak(Box::new(MaybeUninit::uninit())),
        filled(n, LinkedKey::vacant),
        filled(n, || None),
        filled(l.slots, || 0),
    )
}

fn estimated<K, V>(num_buckets: u32) -> Init<K, V> {
    let size = Init::<K, V>::estimate_size(num_buckets);
    Init::<K, V>::with_fixed(num_buckets, 4096, size)
}

fn insert<V>(map: &mut Access<u64, V>, key: u64, hash: u64, value: V) -> Result<(), FullError> {
    match map.entry_with_hash(key, hash) {
        Entry::Occupied(mut e) => {
            e.insert(value);
            Ok(())
        }
        Entry::Vacant(e) => match e.insert(value) {
            Ok(_) => Ok(()),
            Err(full) => Err(full),
        },
    }
}

#[test]
fn a_new_table_is_empty() {
    let map = attach(estimated::<u64, u32>(5));
    assert_eq!(map.get_num_buckets(), 5);
    assert_eq!(map.get_num_buckets_in_use(), 0);
    for pos in 0..7 {
        assert!(map.get_at_bucket(pos).is_none());
    }
    assert_eq!(map.get_with_hash(&1, 1), None);
}

#[test]
fn what_was_inserted_is_found() {
    let mut map = attach(estimated::<u64, u32>(4));
    assert_eq!(insert(&mut map, 10, 3, 100), Ok(()));
    assert_eq!(insert(&mut map, 20, 3, 200), Ok(()));
    assert_eq!(insert(&mut map, 30, 4, 300), Ok(()));
    assert_eq!(map.get_with_hash(&10, 3), Some(&100));
    assert_eq!(map.get_with_hash(&20, 3), Some(&200));
    assert_eq!(map.get_with_hash(&30, 4), Some(&300));
    assert_eq!(map.get_with_hash(&30, 3), None);
    assert_eq!(map.get_with_hash(&40, 3), None);
    assert_eq!(map.get_num_buckets_in_use(), 3);
}

#[test]
fn buckets_are_taken_in_ascending_order() {
    let mut map = attach(estimated::<u64, u32>(3));
    for key in 0..3u64 {
        insert(&mut map, key, key * 7, key as u32 + 1).unwrap();
    }
    for pos in 0..3usize {
        assert_eq!(map.get_at_bucket(pos), Some((&(pos as u64), &(pos as u32 + 1))));
    }
    assert_eq!(map.get_at_bucket(3), None);
}

#[test]
fn a_full_table_refuses_and_stays_as_it_is() {
    let mut map = attach(estimated::<u64, u32>(2));
    insert(&mut map, 1, 1, 11).unwrap();
    insert(&mut map, 2, 2, 22).unwrap();
    assert_eq!(insert(&mut map, 3, 3, 33), Err(FullError));
    assert_eq!(map.get_with_hash(&3, 3), None);
    assert_eq!(map.get_with_hash(&1, 1), Some(&11));
    assert_eq!(map.get_with_hash(&2, 2), Some(&22));
    assert_eq!(map.get_num_buckets_in_use(), 2);
    assert_eq!(insert(&mut map, 2, 2, 23), Ok(()));
    assert_eq!(map.get_with_hash(&2, 2), Some(&23));
}

#[test]
fn a_table_without_buckets_refuses_everything() {
    let mut map = attach(estimated::<u64, u32>(0));
    assert_eq!(map.get_num_buckets(), 0);
    assert_eq!(insert(&mut map, 3, 3, 33), Err(FullError));
    map.clear();
    assert_eq!(insert(&mut map, 3, 3, 33), Err(FullError));
}

#[test]
fn an_occupied_entry_reads_and_replaces() {
    let mut map = attach(estimated::<u64, u32>(2));
    match map.entry_with_hash(5, 9) {
        Entry::Occupied(_) => panic!("nothing was inserted"),
        Entry::Vacant(e) => {
            let value = e.insert(50).unwrap();
            assert_eq!(*value, 50);
            *value = 51;
        }
    }
    match map.entry_with_hash(5, 9) {
        Entry::Occupied(mut e) => {
            assert_eq!(*e.get(), 51);
            *e.get_mut() += 1;
            assert_eq!(*e.get(), 52);
            assert_eq!(e.insert(60), 52);
        }
        Entry::Vacant(_) => panic!("the key was inserted"),
    }
    assert_eq!(map.get_with_hash(&5, 9), Some(&60));
    assert_eq!(map.get_num_buckets_in_use(), 1);
}

#[test]
fn a_removed_key_is_not_found_and_the_others_are() {
    for victim in 0..4u64 {
        let mut map = attach(estimated::<u64, u32>(4));
        for key in 0..4u64 {
            insert(&mut map, key, 6, 100 + key as u32).unwrap();
        }
        map.remove_with_hash(&victim, 6);
        assert_eq!(map.get_num_buckets_in_use(), 3);
        for key in 0..4u64 {
            let expected = 100 + key as u32;
            if key == victim {
                assert_eq!(map.get_with_hash(&key, 6), None);
                assert_eq!(map.get_at_bucket(key as usize), None);
            } else {
                assert_eq!(map.get_with_hash(&key, 6), Some(&expected));
                assert_eq!(map.get_at_bucket(key as usize), Some((&key, &expected)));
            }
        }
    }
}

#[test]
fn removing_an_absent_key_changes_nothing() {
    let mut map = attach(estimated::<u64, u32>(2));
    insert(&mut map, 1, 1, 11).unwrap();
    map.remove_with_hash(&2, 1);
    map.remove_with_hash(&1, 2);
    assert_eq!(map.get_num_buckets_in_use(), 1);
    assert_eq!(map.get_with_hash(&1, 1), Some(&11));
}

#[test]
fn a_removed_bucket_is_the_next_to_be_taken() {
    let mut map = attach(estimated::<u64, u32>(3));
    for key in 0..3u64 {
        insert(&mut map, key, key, 0).unwrap();
    }
    map.remove_with_hash(&0, 0);
    map.remove_with_hash(&1, 1);
    insert(&mut map, 8, 8, 88).unwrap();
    assert_eq!(map.get_at_bucket(1), Some((&8, &88)));
    insert(&mut map, 9, 9, 99).unwrap();
    assert_eq!(map.get_at_bucket(0), Some((&9, &99)));
    assert_eq!(insert(&mut map, 7, 7, 77), Err(FullError));
}

#[test]
fn removing_what_was_inserted_gives_the_table_back() {
    let mut map = attach(estimated::<u64, u32>(4));
    insert(&mut map, 1, 5, 11).unwrap();
    insert(&mut map, 2, 5, 22).unwrap();
    insert(&mut map, 3, 5, 33).unwrap();
    map.remove_with_hash(&3, 5);
    assert_eq!(map.get_num_buckets_in_use(), 2);
    assert_eq!(map.get_with_hash(&1, 5), Some(&11));
    assert_eq!(map.get_with_hash(&2, 5), Some(&22));
    insert(&mut map, 4, 6, 44).unwrap();
    assert_eq!(map.get_at_bucket(2), Some((&4, &44)));
}

#[test]
fn entries_are_reached_by_their_bucket() {
    for victim in 0..4usize {
        let mut map = attach(estimated::<u64, u32>(5));
        for key in 0..4u64 {
            insert(&mut map, key, key % 2, key as u32).unwrap();
        }
        assert!(map.entry_at_bucket(4).is_none());
        assert!(map.entry_at_bucket(5).is_none());
        {
            let mut e = map.entry_at_bucket(victim).unwrap();
            assert_eq!(*e.get(), victim as u32);
            *e.get_mut() += 10;
        }
        let removed = map.entry_at_bucket(victim).unwrap().remove();
        assert_eq!(removed, victim as u32 + 10);
        assert!(map.entry_at_bucket(victim).is_none());
        for key in 0..4u64 {
            let value = key as u32;
            let expected = if key == victim as u64 { None } else { Some(&value) };
            assert_eq!(map.get_with_hash(&key, key % 2), expected);
        }
        assert_eq!(map.get_num_buckets_in_use(), 3);
    }
}

#[test]
fn iterating_over_the_buckets_meets_every_entry_once() {
    let mut map = attach(estimated::<u64, u32>(8));
    for key in 0..6u64 {
        let hash = map.get_hash_value(&key);
        insert(&mut map, key, hash, key as u32).unwrap();
    }
    let hash = map.get_hash_value(&3);
    map.remove_with_hash(&3, hash);
    let mut met = Vec::new();
    for pos in 0..map.get_num_buckets() {
        if let Some((k, v)) = map.get_at_bucket(pos) {
            assert_eq!(map.get_with_hash(k, map.get_hash_value(k)), Some(v));
            met.push(*k);
        }
    }
    assert_eq!(met.len(), map.get_num_buckets_in_use());
    met.sort();
    assert_eq!(met, vec![0, 1, 2, 4, 5]);
}

#[test]
fn clearing_leaves_an_empty_table() {
    let mut map = attach(estimated::<u64, u32>(3));
    for key in 0..3u64 {
        insert(&mut map, key, 1, 1).unwrap();
    }
    map.clear();
    assert_eq!(map.get_num_buckets(), 3);
    assert_eq!(map.get_num_buckets_in_use(), 0);
    for key in 0..3u64 {
        assert_eq!(map.get_with_hash(&key, 1), None);
        assert_eq!(map.get_at_bucket(key as usize), None);
    }
    insert(&mut map, 9, 9, 99).unwrap();
    assert_eq!(map.get_at_bucket(0), Some((&9, &99)));
}

#[test]
fn shuffling_keeps_every_entry() {
    let mut map = attach(estimated::<u64, u32>(20));
    for key in 0..15u64 {
        let hash = map.get_hash_value(&key);
        insert(&mut map, key, hash, 2 * key as u32).unwrap();
    }
    for key in 5..9u64 {
        let hash = map.get_hash_value(&key);
        map.remove_with_hash(&key, hash);
    }
    assert!(map.can_shuffle());
    for _ in 0..2 {
        map.shuffle();
        assert_eq!(map.get_num_buckets(), 20);
        assert_eq!(map.get_num_buckets_in_use(), 11);
        for key in 0..15u64 {
            let value = 2 * key as u32;
            let expected = if key >= 5 && key < 9 { None } else { Some(&value) };
            assert_eq!(map.get_with_hash(&key, map.get_hash_value(&key)), expected);
        }
    }
    for key in 100..109u64 {
        let hash = map.get_hash_value(&key);
        assert_eq!(insert(&mut map, key, hash, 1), Ok(()));
    }
    assert_eq!(insert(&mut map, 200, 0, 1), Err(FullError));
}

#[test]
fn shuffling_takes_the_last_free_bucket_first() {
    let mut map = attach(estimated::<u64, u32>(3));
    map.shuffle();
    insert(&mut map, 1, 1, 11).unwrap();
    assert_eq!(map.get_at_bucket(2), Some((&1, &11)));
}

#[test]
fn shuffling_puts_a_key_under_its_own_hash() {
    let mut map = attach(estimated::<u64, u32>(4));
    let hash = map.get_hash_value(&1);
    insert(&mut map, 1, hash + 1, 11).unwrap();
    assert_eq!(map.get_with_hash(&1, hash), None);
    map.shuffle();
    assert_eq!(map.get_with_hash(&1, hash), Some(&11));
    assert_eq!(map.get_with_hash(&1, hash + 1), None);
}

#[test]
fn shuffling_cuts_a_large_dictionary_to_the_estimate() {
    let size = Init::<u64, u32>::estimate_size(4);
    let mut map = attach(Init::<u64, u32>::with_fixed(4, 4096, size + 4000));
    let slots = Init::<u64, u32>::with_fixed(4, 4096, size).layout().unwrap().slots as u64;
    insert(&mut map, 1, slots, 11).unwrap();
    assert_eq!(map.get_with_hash(&1, 0), None);
    map.clear();
    map.shuffle();
    insert(&mut map, 1, slots, 11).unwrap();
    assert_eq!(map.get_with_hash(&1, 0), Some(&11));
}

#[test]
fn shuffling_stays_inside_an_area_below_the_estimate() {
    let size = Init::<u64, u32>::estimate_size(4) - 900;
    let init = Init::<u64, u32>::with_fixed(4, 4096, size);
    let slots = init.layout().unwrap().slots as u64;
    let mut map = attach(init);
    for key in 0..3u64 {
        let hash = map.get_hash_value(&key);
        insert(&mut map, key, hash, key as u32).unwrap();
    }
    assert!(map.can_shuffle());
    map.shuffle();
    for key in 0..3u64 {
        assert_eq!(map.get_with_hash(&key, map.get_hash_value(&key)), Some(&(key as u32)));
    }
    map.clear();
    insert(&mut map, 1, slots + 1, 11).unwrap();
    assert_eq!(map.get_with_hash(&1, 1), Some(&11));
}

/// A key that is its own hash.
#[derive(Debug, PartialEq, Eq)]
struct Plain(u64);

impl KeyHasher<Plain> for FxBuildHasher {
    fn spec_hash(&self, key: &Plain) -> u64 {
        self.hash_key(key)
    }

    fn hash_key(&self, key: &Plain) -> u64 {
        key.0
    }
}

fn put(map: &mut Access<Plain, u64>, key: u64, hash: u64) {
    match map.entry_with_hash(Plain(key), hash) {
        Entry::Occupied(_) => panic!("the key is there already"),
        Entry::Vacant(e) => {
            e.insert(key * 10).unwrap();
        }
    }
}

#[test]
fn shuffling_hangs_buckets_at_the_head_of_their_chains() {
    let p = parts::<Plain, u64>();
    let room = p.carve(4096, 1 << 20, 5).unwrap().dictionary - 4096 + 2 * p.slot.size;
    let mut map = attach(Init::<Plain, u64>::with_fixed(5, 4096, room));
    put(&mut map, 4, 0);
    put(&mut map, 100, 0);
    put(&mut map, 7, 0);
    put(&mut map, 2, 0);
    map.remove_with_hash(&Plain(100), 0);
    map.shuffle();
    assert_eq!(map.get_with_hash(&Plain(4), 0), Some(&40));
    assert_eq!(map.get_with_hash(&Plain(2), 0), Some(&20));
    assert_eq!(map.get_with_hash(&Plain(7), 1), Some(&70));
    assert_eq!(map.get_with_hash(&Plain(7), 0), None);
    assert_eq!(map.get_num_buckets_in_use(), 3);
    put(&mut map, 8, 8);
    assert_eq!(map.get_at_bucket(4), Some((&Plain(8), &80)));
    put(&mut map, 9, 9);
    assert_eq!(map.get_at_bucket(1), Some((&Plain(9), &90)));
}

#[test]
fn old_links_and_values_make_no_difference_to_a_shuffle() {
    let mut one = attach(estimated::<u64, u32>(6));
    let mut two = attach(estimated::<u64, u32>(6));
    for key in 0..4u64 {
        insert(&mut one, key, 1, key as u32).unwrap();
        insert(&mut two, key, key, key as u32 + 50).unwrap();
    }
    one.shuffle();
    two.shuffle();
    two.shuffle();
    for key in 0..4u64 {
        let hash = one.get_hash_value(&key);
        assert_eq!(one.get_with_hash(&key, hash), Some(&(key as u32)));
        assert_eq!(two.get_with_hash(&key, hash), Some(&(key as u32 + 50)));
        assert_eq!(one.get_at_bucket(key as usize), Some((&key, &(key as u32))));
        assert_eq!(two.get_at_bucket(key as usize), Some((&key, &(key as u32 + 50))));
    }
    for pos in vec![5usize, 4] {
        let key = pos as u64 + 100;
        insert(&mut one, key, 9, 99).unwrap();
        insert(&mut two, key, 9, 99).unwrap();
        assert_eq!(one.get_at_bucket(pos), Some((&key, &99)));
        assert_eq!(two.get_at_bucket(pos), Some((&key, &99)));
    }
}

#[test]
fn an_unused_entry_changes_nothing() {
    let mut map = attach(estimated::<u64, u32>(3));
    insert(&mut map, 1, 1, 11).unwrap();
    match map.entry_with_hash(1, 1) {
        Entry::Occupied(e) => assert_eq!(*e.get(), 11),
        Entry::Vacant(_) => panic!("the key was inserted"),
    }
    assert!(matches!(map.entry_with_hash(2, 2), Entry::Vacant(_)));
    assert!(map.entry_at_bucket(0).is_some());
    assert!(map.entry_at_bucket(1).is_none());
    assert_eq!(map.get_num_buckets(), 3);
    assert_eq!(map.get_num_buckets_in_use(), 1);
    assert_eq!(map.get_at_bucket(0), Some((&1, &11)));
    assert_eq!(map.get_at_bucket(1), None);
    assert_eq!(map.get_with_hash(&1, 1), Some(&11));
    assert_eq!(map.get_with_hash(&2, 2), None);
}

#[test]
fn keys_are_hashed_by_fx() {
    let small = attach(estimated::<u32, u32>(1));
    let word = attach(estimated::<u64, u32>(1));
    let wide = attach(estimated::<u128, u32>(1));
    let fx = FxBuildHasher::default();
    for key in vec![0u32, 1, 77, u32::MAX] {
        assert_eq!(small.get_hash_value(&key), BuildHasher::hash_one(&fx, &key));
    }
    for key in vec![0u64, 1, 77, u64::MAX] {
        assert_eq!(word.get_hash_value(&key), BuildHasher::hash_one(&fx, &key));
    }
    for key in vec![0u128, 1, 77, u128::MAX] {
        assert_eq!(wide.get_hash_value(&key), BuildHasher::hash_one(&fx, &key));
    }
    if usize::BITS == 64 {
        let one = 0xf1357aea2e62a9c5u64.rotate_left(26);
        assert_eq!(small.get_hash_value(&1), one);
        assert_eq!(word.get_hash_value(&1), one);
        assert_ne!(wide.get_hash_value(&1), 1);
    }
}

#[derive(PartialEq, Eq)]
struct Tag {
    relation: u32,
    block: u32,
}

impl KeyHasher<Tag> for FxBuildHasher {
    fn spec_hash(&self, key: &Tag) -> u64 {
        self.hash_key(key)
    }

    fn hash_key(&self, key: &Tag) -> u64 {
        BuildHasher::hash_one(self, (key.relation, key.block))
    }
}

#[test]
fn keys_of_another_type_can_be_used() {
    let mut map = attach(estimated::<Tag, &'static str>(3));
    let key = Tag { relation: 4, block: 2 };
    let hash = map.get_hash_value(&key);
    match map.entry_with_hash(Tag { relation: 4, block: 2 }, hash) {
        Entry::Occupied(_) => panic!("nothing was inserted"),
        Entry::Vacant(e) => {
            assert_eq!(e.insert("four-two").map(|v| *v), Ok("four-two"));
        }
    }
    assert_eq!(map.get_with_hash(&key, hash), Some(&"four-two"));
    map.shuffle();
    assert_eq!(map.get_with_hash(&key, hash), Some(&"four-two"));
    let other = Tag { relation: 4, block: 3 };
    assert_eq!(map.get_with_hash(&other, map.get_hash_value(&other)), None);
}

#[test]
fn a_value_address_gives_its_bucket() {
    let init = estimated::<u64, Box<u32>>(6);
    let origin = init.layout().unwrap().vals;
    let map = attach(init);
    let step = std::mem::size_of::<Box<u32>>();
    assert_eq!(step, std::mem::size_of::<Option<Box<u32>>>());
    for i in 0..6usize {
        assert_eq!(map.get_bucket_for_value(origin + i * step), i);
        assert_eq!(map.checked_bucket_for_value(origin + i * step + step - 1), Some(i));
    }
    assert_eq!(map.checked_bucket_for_value(origin + 6 * step), None);
    assert_eq!(map.checked_bucket_for_value(origin - 1), None);
}

#[test]
fn value_addresses_count_in_values() {
    let init = estimated::<u64, u64>(6);
    let origin = init.layout().unwrap().vals;
    let map = attach(init);
    assert_eq!(map.get_bucket_for_value(origin), 0);
    assert_eq!(map.get_bucket_for_value(origin + 16), 2);
    assert_eq!(map.checked_bucket_for_value(origin + 48), None);
    let empty = attach(estimated::<u64, ()>(2));
    assert_eq!(empty.checked_bucket_for_value(usize::MAX), None);
}

#[test]
fn sizes_are_estimated_from_the_parts() {
    let p = parts::<u64, u32>();
    assert_eq!(p.key.size, std::mem::size_of::<LinkedKey<u64>>());
    assert_eq!(p.value.size, std::mem::size_of::<Option<u32>>());
    assert_eq!(p.slot.size, 4);
    assert_eq!(
        Init::<u64, u32>::estimate_size(3),
        3 * (p.key.size + p.value.size) + 20 + p.shared.size + 1000
    );
    let checked = Init::<u64, u32>::checked_estimate_size(3);
    assert_eq!(checked, Some(Init::<u64, u32>::estimate_size(3)));
}

#[test]
fn a_fixed_area_must_be_large_enough() {
    let p = parts::<u64, u32>();
    let need = p.carve(4096, 1 << 20, 7).unwrap().dictionary - 4096 + 4;
    assert!(Init::<u64, u32>::with_fixed(7, 4096, need).layout().is_some());
    assert!(Init::<u64, u32>::with_fixed(7, 4096, need - 1).layout().is_none());
    let mut map = attach(Init::<u64, u32>::with_fixed(7, 4096, need));
    for key in 0..7u64 {
        insert(&mut map, key, 1000 - key, key as u32).unwrap();
    }
    for key in 0..7u64 {
        assert_eq!(map.get_with_hash(&key, key), Some(&(key as u32)));
    }
}

#[test]
fn attaching_as_reader_makes_the_same_table() {
    let init = estimated::<u64, u32>(2);
    let l = init.layout().unwrap();
    let mut map = init.attach_reader(
        Box::leak(Box::new(MaybeUninit::uninit())),
        filled(2, LinkedKey::vacant),
        filled(2, || Some(7)),
        filled(l.slots, || 1),
    );
    assert_eq!(map.get_num_buckets_in_use(), 0);
    assert_eq!(map.get_at_bucket(0), None);
    insert(&mut map, 1, 1, 11).unwrap();
    assert_eq!(map.get_with_hash(&1, 1), Some(&11));
}

#[test]
fn a_hasher_can_be_given() {
    let map = attach(estimated::<u64, u32>(1).with_hasher(FxBuildHasher::default()));
    assert_eq!(
        map.get_hash_value(&5),
        BuildHasher::hash_one(&FxBuildHasher::default(), 5u64)
    );
}

#[test]
fn a_table_in_shared_memory_has_the_estimated_size() {
    let init: HashMapInit<'static, u64, u32, FxBuildHasher, &str> =
        HashMapInit::with_shmem(9, "handle", 8192);
    let l = init.layout().unwrap();
    assert_eq!(l.end, 8192 + Init::<u64, u32>::estimate_size(9));
    assert_eq!(l.num_buckets, 9);
    assert_eq!(l.shared, 8192);
}

#[test]
fn resizeable_tables_ask_for_an_area() {
    let request = Init::<u64, u32>::new_resizeable_named(5, 50, "pages");
    assert_eq!(request.name, "pages");
    assert_eq!(request.size, Init::<u64, u32>::estimate_size(5));
    assert_eq!(request.max_size, Init::<u64, u32>::estimate_size(50));
    let init = request.in_area("handle", 4096);
    let l = init.layout().unwrap();
    assert_eq!(l.num_buckets, 5);
    assert_eq!(l.end, 4096 + Init::<u64, u32>::estimate_size(5));
}

#[test]
fn unnamed_resizeable_tables_share_a_name() {
    let one = Init::<u64, u32>::new_resizeable(1, 2);
    let two = Init::<u64, u32>::new_resizeable(3, 4);
    assert_eq!(one.name, "neon_shmem_hmap0");
    assert_eq!(two.name, "neon_shmem_hmap0");
    assert_eq!(one.num_buckets, 1);
    assert_eq!(two.size, Init::<u64, u32>::estimate_size(3));
    assert_eq!(two.max_size, Init::<u64, u32>::estimate_size(4));
}
