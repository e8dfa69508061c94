use fungus::identity_hash::{identity_hash, IdentityHashMap, IdentityHashSet, IdentityHasher};

#[test]
fn the_hash_is_the_value_written_last() {
    let mut hasher = IdentityHasher::default();
    assert_eq!(hasher.finish(), 0);
    hasher.write_u64(22);
    assert_eq!(hasher.finish(), 22);
    hasher.write_u64(44);
    assert_eq!(hasher.finish(), 44);
    assert_eq!(identity_hash(u64::MAX), u64::MAX);
}

#[test]
fn values_are_grouped_under_their_hash_in_the_order_they_came() {
    let mut map: IdentityHashMap<u32> = IdentityHashMap::new();
    map.add(22, 44);
    map.add(7, 1);
    map.add(22, 45);
    assert_eq!(map.groups(), &vec![(22, vec![44, 45]), (7, vec![1])]);
    assert_eq!(map.find(22), 0);
    assert_eq!(map.find(7), 1);
    assert_eq!(map.find(8), 2);
}

#[test]
fn many_hashes_are_found_again() {
    let mut set: IdentityHashSet = IdentityHashSet::new();
    for i in 0..1000u64 {
        set.add(i * 16, ());
    }
    for i in 0..1000u64 {
        assert_eq!(set.find(i * 16), i as usize);
        assert_eq!(set.find(i * 16 + 1), 1000);
    }
    assert_eq!(set.into_groups().len(), 1000);
}
