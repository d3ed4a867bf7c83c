use neural::arena::Arena;

#[test]
fn a_new_arena_is_empty() {
    let arena: Arena<u32> = Arena::new();
    assert_eq!(arena.len(), 0);
    assert!(arena.get(0).is_none());
}

#[test]
fn add_hands_out_positions() {
    let mut arena = Arena::new();
    assert_eq!(arena.add(10u32), 0);
    assert_eq!(arena.add(20u32), 1);
    assert_eq!(arena.add(10u32), 2);
    assert_eq!(arena.len(), 3);
    assert_eq!(arena.get(0), Some(&10));
    assert_eq!(arena.get(1), Some(&20));
    assert_eq!(arena.get(2), Some(&10));
    assert_eq!(arena.get(3), None);
}

#[test]
fn get_mut_changes_one_slot() {
    let mut arena = Arena::new();
    arena.add(1u32);
    arena.add(2u32);
    *arena.get_mut(1).unwrap() = 7;
    assert!(arena.get_mut(2).is_none());
    assert_eq!(arena.get(0), Some(&1));
    assert_eq!(arena.get(1), Some(&7));
    assert_eq!(arena.len(), 2);
}

#[test]
fn a_clone_is_an_arena_of_its_own() {
    let mut arena = Arena::new();
    arena.add(1u32);
    arena.add(2u32);
    let mut copy = arena.clone();
    *copy.get_mut(0).unwrap() = 5;
    copy.add(3);
    assert_eq!(arena.len(), 2);
    assert_eq!(arena.get(0), Some(&1));
    assert_eq!(copy.len(), 3);
    assert_eq!(copy.get(0), Some(&5));
    assert_eq!(copy.get(1), Some(&2));
}
