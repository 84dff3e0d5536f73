use slot_arena::{Arena, ID};

#[test]
fn handle_from_another_arena_is_checked_like_any_other() {
    let mut a: Arena<u32> = Arena::new();
    let mut b: Arena<u32> = Arena::new();
    let ha = a.insert(1);
    // An empty arena has no slot for the handle's index.
    assert_eq!(b.get(ha), None);
    assert!(!b.contains(ha));
    // After inserting into b, the same (index, generation) pair happens to
    // be valid there too: the plain handle carries no arena identity.
    let hb = b.insert(2);
    assert_eq!(hb, ha);
    assert_eq!(b.get(ha), Some(&2));
}

/// Replays a long pseudo-random insert/remove sequence against a naive
/// model: a vector of slots with explicit generations. Checks lengths,
/// lookups, handle reuse and iteration after every step.
#[test]
fn long_mixed_sequence_matches_naive_model() {
    let mut arena: Arena<u64> = Arena::new();
    // The model: per slot, (generation, Option<value>).
    let mut model: Vec<(u32, Option<u64>)> = Vec::new();
    let mut issued: Vec<(ID, u64)> = Vec::new();
    let mut state: u64 = 0x2545_f491_4f6c_dd1d;
    for step in 0..2000u64 {
        // A small linear congruential step stands in for a random source.
        state = state.wrapping_mul(6364136223846793005).wrapping_add(1442695040888963407);
        let coin = (state >> 33) % 3;
        if coin == 0 && !issued.is_empty() {
            let pick = ((state >> 17) as usize) % issued.len();
            let (h, v) = issued.swap_remove(pick);
            let slot = &mut model[h.index()];
            let expect = if slot.0 == h.generation() && slot.1.is_some() {
                slot.0 += 1;
                slot.1.take()
            } else {
                None
            };
            assert_eq!(expect, Some(v));
            assert_eq!(arena.remove(h), Some(v));
            assert_eq!(arena.remove(h), None);
        } else {
            let v = step * 31 + (state % 97);
            let h = arena.insert(v);
            if h.index() == model.len() {
                model.push((0, Some(v)));
            } else {
                let slot = &mut model[h.index()];
                assert!(slot.1.is_none());
                slot.1 = Some(v);
            }
            assert_eq!(model[h.index()].0, h.generation());
            issued.push((h, v));
        }
        // The live count always matches the model.
        let live = model.iter().filter(|s| s.1.is_some()).count();
        assert_eq!(arena.len(), live);
        // Every issued handle still reads its own value.
        for (h, v) in &issued {
            assert_eq!(arena.get(*h), Some(v));
        }
    }
    // Iteration agrees with the model, in ascending slot order.
    let mut it = arena.iter();
    let mut walked = 0;
    for (idx, slot) in model.iter().enumerate() {
        if let Some(v) = slot.1 {
            let (id, got) = it.next().unwrap();
            assert_eq!(id.index(), idx);
            assert_eq!(id.generation(), slot.0);
            assert_eq!(*got, v);
            walked += 1;
        }
    }
    assert!(it.next().is_none());
    assert_eq!(walked, arena.len());
}
