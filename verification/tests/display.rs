use slot_arena::Arena;

#[test]
fn display_is_bare_index_at_generation_zero() {
    let mut arena: Arena<u8> = Arena::new();
    let h0 = arena.insert(0);
    let h1 = arena.insert(1);
    assert_eq!(h0.display_string(), "0");
    assert_eq!(h1.display_string(), "1");
}

#[test]
fn display_shows_index_and_generation_after_reuse() {
    let mut arena: Arena<u8> = Arena::new();
    let h = arena.insert(0);
    arena.remove(h);
    let h1 = arena.insert(1);
    assert_eq!(h1.display_string(), "(0-1)");
    arena.remove(h1);
    let h2 = arena.insert(2);
    assert_eq!(h2.display_string(), "(0-2)");
}

#[test]
fn display_renders_multi_digit_numbers() {
    let mut arena: Arena<u32> = Arena::new();
    let mut last = arena.insert(0);
    for k in 1..=123u32 {
        last = arena.insert(k);
    }
    assert_eq!(last.index(), 123);
    assert_eq!(last.display_string(), "123");
    for _ in 0..10 {
        arena.remove(last);
        last = arena.insert(9);
    }
    assert_eq!(last.index(), 123);
    assert_eq!(last.generation(), 10);
    assert_eq!(last.display_string(), "(123-10)");
}
