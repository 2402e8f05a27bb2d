use terrain_mesh::arena::{Arena, ArenaId};

#[test]
fn push_returns_fresh_identities_in_order() {
    let mut arena: Arena<&str> = Arena::new();
    assert_eq!(arena.len(), 0);
    let a = arena.push("a");
    let b = arena.push("b");
    let c = arena.push("c");
    assert_eq!(a.position(), 0);
    assert_eq!(b.position(), 1);
    assert_eq!(c.position(), 2);
    assert_eq!(arena.len(), 3);
    assert!(!a.same(&b));
    assert!(a.same(&a));
}

#[test]
fn get_finds_what_was_pushed() {
    let mut arena: Arena<u32> = Arena::new();
    let a = arena.push(10);
    let b = arena.push(20);
    assert_eq!(arena.get(a), Some(&10));
    assert_eq!(arena.get(b), Some(&20));
}

#[test]
fn get_of_a_foreign_identity_is_none() {
    let mut small: Arena<u32> = Arena::new();
    let mut large: Arena<u32> = Arena::new();
    small.push(1);
    large.push(1);
    let far: ArenaId<u32> = large.push(2);
    assert_eq!(small.get(far), None);
    assert!(small.get_mut(far).is_none());
}

#[test]
fn replace_swaps_in_place_and_returns_the_previous_value() {
    let mut arena: Arena<String> = Arena::new();
    let a = arena.push(String::from("old"));
    let b = arena.push(String::from("other"));
    let previous = arena.replace(a, String::from("new"));
    assert_eq!(previous, "old");
    assert_eq!(arena.get(a).unwrap(), "new");
    assert_eq!(arena.get(b).unwrap(), "other");
    assert_eq!(arena.len(), 2);
}

#[test]
fn get_mut_changes_the_slot_only() {
    let mut arena: Arena<u32> = Arena::new();
    let a = arena.push(1);
    let b = arena.push(2);
    *arena.get_mut(a).unwrap() = 7;
    assert_eq!(arena.get(a), Some(&7));
    assert_eq!(arena.get(b), Some(&2));
}

#[test]
fn identities_are_copies() {
    let mut arena: Arena<u32> = Arena::new();
    let a = arena.push(5);
    let again = a;
    let cloned = a.clone();
    assert_eq!(arena.get(a), arena.get(again));
    assert!(cloned.same(&a));
}

#[test]
fn indexing_reads_the_slot() {
    let mut arena: Arena<u32> = Arena::new();
    let a = arena.push(11);
    let b = arena.push(22);
    assert_eq!(arena[a], 11);
    assert_eq!(arena[b], 22);
}
