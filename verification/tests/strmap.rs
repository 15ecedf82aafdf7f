use bson_parse::strmap::StringMap;

#[test]
fn test_get_set() {
    let mut h: StringMap<u32> = StringMap::new(100);

    assert!(h.get("Not Found").is_none());

    assert!(h.set("hello", 5));
    assert_eq!(h.get("hello").unwrap(), &5);

    assert!(h.set("world", 100));
    assert_eq!(h.get("world").unwrap(), &100);

    assert!(h.set("hello", 0));
    assert_eq!(h.get("hello").unwrap(), &0);
}

#[test]
fn a_full_table_rejects_new_keys() {
    let mut h: StringMap<u32> = StringMap::new(1);

    assert!(h.set("hello", 1));
    assert_eq!(h.occupied_count(), 1);

    for i in 0..10 {
        assert!(!h.set(&i.to_string(), i));
        assert!(h.get(&i.to_string()).is_none());
        assert_eq!(h.occupied_count(), 1);
    }

    // Overwriting the resident key still works.
    assert!(h.set("hello", 2));
    assert_eq!(h.get("hello").unwrap(), &2);
}

#[test]
fn delete_frees_the_slot() {
    let mut h: StringMap<u32> = StringMap::new(5);

    assert!(h.set("hello", 5));
    assert_eq!(h.occupied_count(), 1);

    assert!(h.set("world", 6));
    assert_eq!(h.occupied_count(), 2);

    assert!(h.set("hello", 7));
    assert_eq!(h.occupied_count(), 2);

    h.delete("hello");
    assert_eq!(h.occupied_count(), 1);
    assert!(h.get("hello").is_none());
    assert_eq!(h.get("world").unwrap(), &6);

    h.delete("missing");
    assert_eq!(h.occupied_count(), 1);
}

#[test]
fn get_mut_overwrites_in_place() {
    let mut h: StringMap<u32> = StringMap::new(8);
    assert!(h.set("counter", 1));
    if let Some(v) = h.get_mut("counter") {
        *v += 41;
    } else {
        unreachable!();
    }
    assert_eq!(h.get("counter").unwrap(), &42);
    assert!(h.get_mut("absent").is_none());
}

#[test]
fn many_keys_probe_around_the_table() {
    let mut h: StringMap<usize> = StringMap::new(16);
    for i in 0..16 {
        assert!(h.set(&format!("key{}", i), i));
    }
    assert_eq!(h.occupied_count(), 16);
    for i in 0..16 {
        assert_eq!(h.get(&format!("key{}", i)).unwrap(), &i);
    }
    assert!(!h.set("overflow", 99));
    for i in 0..16 {
        h.delete(&format!("key{}", i));
    }
    assert_eq!(h.occupied_count(), 0);
}

#[test]
fn counts_track_sets_and_deletes() {
    let mut h: StringMap<u32> = StringMap::new(5);
    assert_eq!(h.slot_count(), 5);
    assert_eq!(h.occupied_count(), 0);
    assert!(h.set("a", 1));
    assert!(h.set("b", 2));
    assert_eq!(h.slot_count(), 5);
    assert_eq!(h.occupied_count(), 2);
    h.delete("a");
    assert_eq!(h.occupied_count(), 1);
}

#[test]
fn get_index_agrees_with_get() {
    let mut h: StringMap<u32> = StringMap::new(4);
    assert!(h.get_index("a").is_none());
    assert!(h.set("a", 10));
    assert!(h.get_index("a").is_some());
    let hash = h.get_hash("a");
    let again = h.get_hash("a");
    assert_eq!(hash, again);
}
