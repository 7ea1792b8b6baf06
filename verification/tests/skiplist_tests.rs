use rustunsafedatastruct::skiplist::{coin_of, Node, SkipList};

#[test]
fn test_skiplist() {
    let mut v = SkipList::new();
    v.insert((1, 6));
    assert_eq!(v.find(&1), Some(&6));
    v.insert((4, 7));
    assert_eq!(v.find(&4), Some(&7));

    v.insert((5, 6));
    assert_eq!(v.find(&5), Some(&6));
    v.insert((6, 8));
    assert_eq!(v.find(&6), Some(&8));

    v.insert((56, 6));
    assert_eq!(v.find(&56), Some(&6));
    v.insert((56, 8));
    assert_eq!(v.find(&56), Some(&8));

    v.remove(&56);
    assert_eq!(v.find(&56), None);

    for i in 100..100000 {
        v.insert((i, i + 1));
    }

    assert_eq!(v.find(&999), Some(&1000));

    v.remove(&999);

    assert_eq!(v.find(&999), None);
}

#[test]
fn skiplist_find_mut_changes_value() {
    let mut v = SkipList::new();
    for i in 0..100 {
        v.insert((i, i));
    }
    if let Some(x) = v.find_mut(&42) {
        *x = 4242;
    }
    assert_eq!(v.find(&42), Some(&4242));
    assert_eq!(v.find(&41), Some(&41));
    assert!(v.find_mut(&1000).is_none());
}

#[test]
fn skiplist_remove_all_then_reuse() {
    let mut v = SkipList::new();
    for i in 0..200 {
        v.insert((i, i * 3));
    }
    for i in 0..200 {
        v.remove(&i);
        assert_eq!(v.find(&i), None);
    }
    v.remove(&7);
    for i in (0..50).rev() {
        v.insert((i, i + 1));
    }
    for i in 0..50 {
        assert_eq!(v.find(&i), Some(&(i + 1)));
    }
    assert_eq!(v.find(&50), None);
}

#[test]
fn skiplist_empty_find_and_remove() {
    let mut v: SkipList<i64, u8> = SkipList::new();
    assert_eq!(v.find(&0), None);
    v.remove(&0);
    assert_eq!(v.find(&0), None);
}

#[test]
fn skiplist_negative_keys_in_order() {
    let mut v = SkipList::new();
    for i in [-5i32, 3, -1, 0, 8, -9] {
        v.insert((i, i * 2));
    }
    for i in [-5i32, 3, -1, 0, 8, -9] {
        assert_eq!(v.find(&i), Some(&(i * 2)));
    }
    assert_eq!(v.find(&2), None);
}

#[test]
fn skiplist_flip_coin_gives_both_sides() {
    let mut v: SkipList<i32, i32> = SkipList::new();
    let mut heads = 0;
    for _ in 0..200 {
        if v.flipCoin() {
            heads += 1;
        }
    }
    assert!(heads > 0 && heads < 200);
}

#[test]
fn coin_side_follows_parity() {
    assert!(coin_of(1));
    assert!(coin_of(u32::MAX));
    assert!(!coin_of(0));
    assert!(!coin_of(1000));
}

#[test]
fn skiplist_node_levels() {
    let mut n = Node::new((1, 2));
    assert_eq!(n.get_level(), 0);
    assert_eq!(*n.get_key(), 1);
    assert_eq!(*n.get_value(), 2);
    *n.get_mut_value() = 9;
    assert_eq!(*n.get_value(), 9);
    let p = n.get_level_pointer(0);
    n.put_newnodePtr(p);
    n.put_newnodePtr(p);
    assert_eq!(n.get_level(), 2);
    assert!(n.set_level_pointer(1, p));
    assert!(!n.set_level_pointer(2, p));
    n.pop();
    assert_eq!(n.get_level(), 1);
}

#[test]
fn skiplist_other_keys_unchanged_by_insert_and_remove() {
    let mut v = SkipList::new();
    for k in [10, 30, 50] {
        v.insert((k, k * 2));
    }
    v.insert((20, 7));
    assert_eq!(v.find(&10), Some(&20));
    assert_eq!(v.find(&30), Some(&60));
    assert_eq!(v.find(&50), Some(&100));
    v.insert((30, 9));
    assert_eq!(v.find(&10), Some(&20));
    assert_eq!(v.find(&20), Some(&7));
    assert_eq!(v.find(&30), Some(&9));
    v.remove(&20);
    assert_eq!(v.find(&20), None);
    assert_eq!(v.find(&10), Some(&20));
    assert_eq!(v.find(&30), Some(&9));
    assert_eq!(v.find(&50), Some(&100));
}
