use fix_lob_engine::lob::arena::Arena;
use fix_lob_engine::lob::rbtree::RbTree;

#[test]
fn arena_reuses_freed_slots_first() {
    let mut a: Arena<u64> = Arena::new(2);
    assert!(a.is_empty());
    let i = a.allocate(10).unwrap();
    let j = a.allocate(20).unwrap();
    assert_eq!(a.allocate(30), None);
    assert_eq!(a.len(), 2);
    assert_eq!(*a.get(j), 20);
    a.dealloc(i);
    assert_eq!(a.len(), 1);
    assert!(a.has_free_slot());
    let k = a.allocate(40).unwrap();
    assert_eq!(k, i);
    a.set(k, 41);
    assert_eq!(*a.get(k), 41);
}

#[test]
fn tree_orders_levels_by_key() {
    let mut t = RbTree::new(16);
    assert!(t.is_empty());
    for key in [50i64, 20, 80, 10, 30, 70, 90, 60] {
        t.insert(key).unwrap();
    }
    assert_eq!(t.arena.get(t.min_key().unwrap()).key, 10);
    assert_eq!(t.arena.get(t.max_key().unwrap()).key, 90);
    let n30 = t.find(30).unwrap();
    assert_eq!(t.arena.get(n30).key, 30);
    assert_eq!(t.find(35), None);
    t.delete(t.find(10).unwrap());
    t.delete(t.find(90).unwrap());
    t.delete(t.find(50).unwrap());
    assert_eq!(t.arena.get(t.min_key().unwrap()).key, 20);
    assert_eq!(t.arena.get(t.max_key().unwrap()).key, 80);
    assert_eq!(t.find(50), None);
    assert!(t.find(60).is_some());
}

#[test]
fn tree_insert_of_an_existing_key_or_when_full() {
    let mut t = RbTree::new(2);
    let a = t.insert(5).unwrap();
    assert_eq!(t.insert(5), Some(a));
    t.insert(6).unwrap();
    assert_eq!(t.insert(7), None);
}

#[test]
fn tree_reuses_the_slot_of_a_deleted_level() {
    let mut t = RbTree::new(8);
    for key in [5i64, 3, 8, 1] {
        t.insert(key).unwrap();
    }
    let z = t.find(3).unwrap();
    t.delete(z);
    assert_eq!(t.insert(42), Some(z));
}

/// The black height of the subtree at `n`, or `None` where the red-black rules fail in it.
fn black_height(t: &RbTree, n: u32, parent_red: bool) -> Option<u32> {
    if n == u32::MAX {
        return Some(0);
    }
    let node = t.arena.get(n);
    let red = node.color == 1;
    if red && parent_red {
        return None;
    }
    let l = black_height(t, node.left, red)?;
    let r = black_height(t, node.right, red)?;
    if l != r {
        return None;
    }
    Some(l + if red { 0 } else { 1 })
}

fn is_red_black(t: &RbTree) -> bool {
    (t.root == u32::MAX || t.arena.get(t.root).color == 0) && black_height(t, t.root, false).is_some()
}

#[test]
fn insertions_and_repairable_removals_keep_the_red_black_rules() {
    let mut t = RbTree::new(256);
    for k in 0..100i64 {
        t.insert((k * 37) % 101).unwrap();
        assert!(is_red_black(&t));
    }
    // a red leaf goes without repair
    let mut t = RbTree::new(8);
    for k in [10i64, 5, 20, 15] {
        t.insert(k).unwrap();
    }
    let fifteen = t.find(15).unwrap();
    assert_eq!(t.arena.get(fifteen).color, 1);
    t.delete(fifteen);
    assert!(is_red_black(&t));
    // a black node with one red child: the child takes its place and turns black
    let mut t = RbTree::new(8);
    for k in [10i64, 5, 20, 25] {
        t.insert(k).unwrap();
    }
    t.delete(t.find(20).unwrap());
    assert!(is_red_black(&t));
    // a black leaf leaves nothing in its place: this removal is not repaired
    let mut t = RbTree::new(8);
    for k in [10i64, 20, 30, 40] {
        t.insert(k).unwrap();
    }
    t.delete(t.find(10).unwrap());
    assert!(!is_red_black(&t));
}
