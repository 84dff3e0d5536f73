use slot_arena::Arena;

#[test]
fn round_trip_after_insert() {
    let mut arena: Arena<String> = Arena::new();
    let h = arena.insert("hello".to_string());
    assert_eq!(arena.get(h), Some(&"hello".to_string()));
    let h2 = arena.insert("world".to_string());
    assert_eq!(arena.get(h2), Some(&"world".to_string()));
    assert_eq!(arena.get(h), Some(&"hello".to_string()));
}

#[test]
fn round_trip_numbers() {
    let mut arena: Arena<u64> = Arena::new();
    let mut handles = Vec::new();
    for k in 0..100u64 {
        handles.push(arena.insert(k * k));
    }
    for (k, h) in handles.iter().enumerate() {
        assert_eq!(arena.get(*h), Some(&((k as u64) * (k as u64))));
    }
}

#[test]
fn removal_invalidates_handle() {
    let mut arena: Arena<u32> = Arena::new();
    let h = arena.insert(7);
    assert!(arena.contains(h));
    assert_eq!(arena.remove(h), Some(7));
    assert_eq!(arena.get(h), None);
    assert_eq!(arena.get_mut(h), None);
    assert!(!arena.contains(h));
    assert_eq!(arena.remove(h), None);
}

#[test]
fn generation_bumps_on_reuse() {
    let mut arena: Arena<&'static str> = Arena::new();
    let h0 = arena.insert("first");
    assert_eq!(h0.index(), 0);
    assert_eq!(h0.generation(), 0);
    assert_eq!(arena.remove(h0), Some("first"));
    let h1 = arena.insert("second");
    // The slot is reused under the next generation.
    assert_eq!(h1.index(), 0);
    assert_eq!(h1.generation(), 1);
    // The old handle shares the index but never becomes valid again.
    assert!(!arena.contains(h0));
    assert_eq!(arena.get(h0), None);
    assert_eq!(arena.get(h1), Some(&"second"));
    // Another cycle bumps the generation once more.
    assert_eq!(arena.remove(h1), Some("second"));
    let h2 = arena.insert("third");
    assert_eq!(h2.index(), 0);
    assert_eq!(h2.generation(), 2);
    assert!(!arena.contains(h0));
    assert!(!arena.contains(h1));
}

#[test]
fn len_tracks_live_entries() {
    let mut arena: Arena<i32> = Arena::new();
    assert_eq!(arena.len(), 0);
    let h0 = arena.insert(1);
    let h1 = arena.insert(2);
    let h2 = arena.insert(3);
    assert_eq!(arena.len(), 3);
    assert!(!arena.is_empty());
    assert_eq!(arena.remove(h1), Some(2));
    assert_eq!(arena.len(), 2);
    // A failed removal leaves the count unchanged.
    assert_eq!(arena.remove(h1), None);
    assert_eq!(arena.len(), 2);
    let h3 = arena.insert(4);
    assert_eq!(arena.len(), 3);
    assert_eq!(arena.remove(h0), Some(1));
    assert_eq!(arena.remove(h2), Some(3));
    assert_eq!(arena.remove(h3), Some(4));
    assert_eq!(arena.len(), 0);
    assert!(arena.is_empty());
}

#[test]
fn scenario_insert_remove_reuse_iterate() {
    let mut arena: Arena<&'static str> = Arena::new();
    let h0 = arena.insert("a");
    let h1 = arena.insert("b");
    let h2 = arena.insert("c");
    assert_eq!((h0.index(), h0.generation()), (0, 0));
    assert_eq!((h1.index(), h1.generation()), (1, 0));
    assert_eq!((h2.index(), h2.generation()), (2, 0));
    assert_eq!(arena.remove(h1), Some("b"));
    assert_eq!(arena.get(h1), None);
    let hd = arena.insert("d");
    assert_eq!((hd.index(), hd.generation()), (1, 1));
    let mut it = arena.iter();
    assert_eq!(it.next(), Some((h0, &"a")));
    assert_eq!(it.next(), Some((hd, &"d")));
    assert_eq!(it.next(), Some((h2, &"c")));
    assert_eq!(it.next(), None);
}

#[test]
fn remove_twice_returns_value_once() {
    let mut arena: Arena<String> = Arena::new();
    let h = arena.insert("once".to_string());
    assert_eq!(arena.remove(h), Some("once".to_string()));
    assert_eq!(arena.remove(h), None);
    assert_eq!(arena.remove(h), None);
}

#[test]
fn empty_arena_observations() {
    let arena: Arena<u8> = Arena::new();
    assert_eq!(arena.len(), 0);
    assert!(arena.is_empty());
    let mut it = arena.iter();
    assert_eq!(it.next(), None);
    let mut back = arena.iter();
    assert_eq!(back.next_back(), None);
    let mut ids = arena.indices();
    assert_eq!(ids.next(), None);
}

#[test]
fn insert_with_id_hands_final_handle_to_builder() {
    let mut arena: Arena<(usize, u32, String)> = Arena::new();
    let h = arena.insert_with_id(|id| (id.index(), id.generation(), "self-aware".to_string()));
    let stored = arena.get(h).unwrap();
    assert_eq!(stored.0, h.index());
    assert_eq!(stored.1, h.generation());
    assert_eq!(stored.2, "self-aware");
    // Also on a reused slot, where the generation is nonzero.
    arena.remove(h);
    let h2 = arena.insert_with_id(|id| (id.index(), id.generation(), "again".to_string()));
    assert_eq!(h2.index(), h.index());
    assert_eq!(h2.generation(), h.generation() + 1);
    let stored2 = arena.get(h2).unwrap();
    assert_eq!((stored2.0, stored2.1), (h2.index(), h2.generation()));
}

#[test]
fn get_mut_writes_through() {
    let mut arena: Arena<i64> = Arena::new();
    let h = arena.insert(10);
    if let Some(v) = arena.get_mut(h) {
        *v = 99;
    } else {
        panic!("expected a live entry");
    }
    assert_eq!(arena.get(h), Some(&99));
    // A stale handle mutates nothing.
    arena.remove(h);
    assert_eq!(arena.get_mut(h), None);
}

#[test]
fn index_reads_established_handles() {
    let mut arena: Arena<&'static str> = Arena::new();
    let h = arena.insert("indexed");
    assert_eq!(*arena.index(h), "indexed");
    let m = arena.index_mut(h);
    *m = "rewritten";
    assert_eq!(*arena.index(h), "rewritten");
}

#[test]
fn free_slots_are_reused_before_growth() {
    let mut arena: Arena<u32> = Arena::new();
    let h0 = arena.insert(0);
    let h1 = arena.insert(1);
    let h2 = arena.insert(2);
    arena.remove(h0);
    arena.remove(h2);
    // Reuse happens from the free-list head: most recently freed first.
    let r2 = arena.insert(22);
    assert_eq!(r2.index(), 2);
    assert_eq!(r2.generation(), 1);
    let r0 = arena.insert(20);
    assert_eq!(r0.index(), 0);
    assert_eq!(r0.generation(), 1);
    // The free list is exhausted, so the next insert grows the store.
    let r3 = arena.insert(3);
    assert_eq!(r3.index(), 3);
    assert_eq!(r3.generation(), 0);
    assert_eq!(arena.get(h1), Some(&1));
    assert_eq!(arena.len(), 4);
}
