use slot_arena::Arena;

#[test]
fn iter_skips_free_slots_in_ascending_order() {
    let mut arena: Arena<u32> = Arena::new();
    let mut handles = Vec::new();
    for k in 0..6u32 {
        handles.push(arena.insert(k));
    }
    arena.remove(handles[1]);
    arena.remove(handles[4]);
    let mut it = arena.iter();
    let mut seen = Vec::new();
    while let Some((id, v)) = it.next() {
        seen.push((id.index(), *v));
    }
    assert_eq!(seen, vec![(0, 0), (2, 2), (3, 3), (5, 5)]);
}

#[test]
fn iter_backward_yields_descending_order() {
    let mut arena: Arena<u32> = Arena::new();
    let mut handles = Vec::new();
    for k in 0..6u32 {
        handles.push(arena.insert(k));
    }
    arena.remove(handles[0]);
    arena.remove(handles[3]);
    let mut it = arena.iter();
    let mut seen = Vec::new();
    while let Some((id, v)) = it.next_back() {
        seen.push((id.index(), *v));
    }
    assert_eq!(seen, vec![(5, 5), (4, 4), (2, 2), (1, 1)]);
}

#[test]
fn iter_both_ends_meet_without_overlap() {
    let mut arena: Arena<u32> = Arena::new();
    for k in 0..5u32 {
        arena.insert(k);
    }
    let mut it = arena.iter();
    let mut front = Vec::new();
    let mut back = Vec::new();
    loop {
        match it.next() {
            Some((_, v)) => front.push(*v),
            None => break,
        }
        match it.next_back() {
            Some((_, v)) => back.push(*v),
            None => break,
        }
    }
    assert_eq!(front, vec![0, 1, 2]);
    assert_eq!(back, vec![4, 3]);
}

#[test]
fn iter_yields_valid_handles() {
    let mut arena: Arena<String> = Arena::new();
    let a = arena.insert("a".to_string());
    let b = arena.insert("b".to_string());
    arena.remove(a);
    let mut it = arena.iter();
    let (id, v) = it.next().unwrap();
    assert_eq!(id, b);
    assert_eq!(v, "b");
    assert!(arena.contains(id));
    assert_eq!(it.next(), None);
}

#[test]
fn iter_mut_updates_every_live_entry() {
    let mut arena: Arena<u64> = Arena::new();
    let mut handles = Vec::new();
    for k in 0..5u64 {
        handles.push(arena.insert(k));
    }
    arena.remove(handles[2]);
    let mut it = arena.iter_mut();
    while let Some((id, v)) = it.next(&mut arena) {
        assert_eq!(id.index() as u64, *v);
        *v += 100;
    }
    assert_eq!(arena.get(handles[0]), Some(&100));
    assert_eq!(arena.get(handles[1]), Some(&101));
    assert_eq!(arena.get(handles[2]), None);
    assert_eq!(arena.get(handles[3]), Some(&103));
    assert_eq!(arena.get(handles[4]), Some(&104));
}

#[test]
fn iter_mut_backward() {
    let mut arena: Arena<u64> = Arena::new();
    for k in 0..4u64 {
        arena.insert(k);
    }
    let mut it = arena.iter_mut();
    let mut order = Vec::new();
    while let Some((id, v)) = it.next_back(&mut arena) {
        order.push(id.index());
        *v *= 2;
    }
    assert_eq!(order, vec![3, 2, 1, 0]);
    let mut values = Vec::new();
    let mut fwd = arena.iter();
    while let Some((_, v)) = fwd.next() {
        values.push(*v);
    }
    assert_eq!(values, vec![0, 2, 4, 6]);
}

#[test]
fn into_iter_yields_owned_values_in_slot_order() {
    let mut arena: Arena<String> = Arena::new();
    let a = arena.insert("a".to_string());
    arena.insert("b".to_string());
    arena.insert("c".to_string());
    arena.remove(a);
    let mut it = arena.into_iter();
    assert_eq!(it.next(), Some("b".to_string()));
    assert_eq!(it.next(), Some("c".to_string()));
    assert_eq!(it.next(), None);
}

#[test]
fn into_iter_backward() {
    let mut arena: Arena<u8> = Arena::new();
    let h0 = arena.insert(10);
    arena.insert(20);
    arena.insert(30);
    arena.remove(h0);
    let mut it = arena.into_iter();
    assert_eq!(it.next_back(), Some(30));
    assert_eq!(it.next_back(), Some(20));
    assert_eq!(it.next_back(), None);
}

#[test]
fn indices_yield_the_handle_half_of_iter() {
    let mut arena: Arena<&'static str> = Arena::new();
    let h0 = arena.insert("x");
    let h1 = arena.insert("y");
    let h2 = arena.insert("z");
    arena.remove(h1);
    let mut ids = arena.indices();
    assert_eq!(ids.next(), Some(h0));
    assert_eq!(ids.next(), Some(h2));
    assert_eq!(ids.next(), None);
}

#[test]
fn fresh_iterators_restart_traversal() {
    let mut arena: Arena<u32> = Arena::new();
    arena.insert(1);
    arena.insert(2);
    let mut first = arena.iter();
    assert!(first.next().is_some());
    assert!(first.next().is_some());
    assert!(first.next().is_none());
    let mut second = arena.iter();
    let mut count = 0;
    while second.next().is_some() {
        count += 1;
    }
    assert_eq!(count, 2);
}
