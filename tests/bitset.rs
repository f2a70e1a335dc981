use toonmux::bitset::{AtomicBitSet, BITSET_CAPACITY};

fn members(set: &AtomicBitSet) -> Vec<usize> {
    let mut it = set.iter();
    let mut out = Vec::new();
    while let Some(i) = it.next() {
        out.push(i);
    }
    out
}

#[test]
fn insert_remove_then_toggle_twice() {
    let mut set = AtomicBitSet::new();
    set.insert(3);
    set.insert(5);
    set.remove(3);
    assert_eq!(members(&set), vec![5]);
    assert!(set.toggle(5));
    assert!(set.is_empty());
    assert_eq!(members(&set), Vec::<usize>::new());
    assert!(!set.toggle(5));
    assert_eq!(members(&set), vec![5]);
}

#[test]
fn new_set_is_empty() {
    let set = AtomicBitSet::new();
    assert!(set.is_empty());
    assert_eq!(set.iter().next(), None);
}

#[test]
fn insert_and_remove_are_idempotent() {
    let mut set = AtomicBitSet::new();
    set.insert(7);
    set.insert(7);
    assert_eq!(members(&set), vec![7]);
    set.remove(7);
    set.remove(7);
    assert!(set.is_empty());
}

#[test]
fn iteration_is_increasing_and_covers_the_word() {
    let mut set = AtomicBitSet::new();
    set.insert(BITSET_CAPACITY - 1);
    set.insert(0);
    set.insert(31);
    set.insert(32);
    assert_eq!(members(&set), vec![0, 31, 32, 63]);
}

#[test]
fn iteration_sees_one_snapshot() {
    let mut set = AtomicBitSet::new();
    set.insert(1);
    set.insert(2);
    let mut it = set.iter();
    set.remove(2);
    set.insert(4);
    assert_eq!(it.next(), Some(1));
    assert_eq!(it.next(), Some(2));
    assert_eq!(it.next(), None);
    assert_eq!(it.next(), None);
}
