use rustunsafedatastruct::redblacktree::RedBlackTree;

#[test]
fn test_insert() {
    let mut m = RedBlackTree::new();
    assert_eq!(m.len(), 0);
    m.insert(1, 2);
    assert_eq!(m.len(), 1);
    m.insert(2, 3);
    assert_eq!(m.len(), 2);
    m.insert(2, 8);
    assert_eq!(m.len(), 3);
    assert_eq!(*m.get(&1).unwrap(), 2);
    assert_eq!(*m.get(&2).unwrap(), 3);
    assert_eq!(*m.get(&2).unwrap(), 3);
}

#[test]
fn test_replace() {
    let mut m = RedBlackTree::new();
    assert_eq!(m.len(), 0);
    m.insert(2, 4);
    assert_eq!(m.len(), 1);
    assert_eq!(m.replace_or_insert(2, 6).unwrap(), 4);
    assert_eq!(m.len(), 1);
    assert_eq!(*m.get(&2).unwrap(), 6);
}

#[test]
fn test_empty_remove() {
    let mut m: RedBlackTree<isize, bool> = RedBlackTree::new();
    assert_eq!(m.remove(&0), None);
}

#[test]
fn test_find_mut() {
    let mut m = RedBlackTree::new();
    m.insert(1, 14);
    m.insert(3, 88);
    m.insert(5, 14);
    let new = 100;
    match m.get_mut(&5) {
        None => panic!(),
        Some(x) => *x = new,
    }
    assert_eq!(m.get(&5), Some(&new));
}

#[test]
fn test_remove() {
    let mut m = RedBlackTree::new();
    m.insert(1, 2);
    assert_eq!(*m.get(&1).unwrap(), 2);

    m.insert(5, 3);
    m.insert(10, 15);
    assert_eq!(*m.get(&1).unwrap(), 2);
    assert_eq!(*m.get(&5).unwrap(), 3);
    assert_eq!(*m.get(&10).unwrap(), 15);
    assert_eq!(m.remove(&1).unwrap(), 2);
    assert_eq!(m.remove(&5).unwrap(), 3);
    assert_eq!(m.remove(&10).unwrap(), 15);
    assert_eq!(m.len(), 0);
}

#[test]
fn test_is_empty() {
    let mut m = RedBlackTree::new();
    m.insert(1, 2);
    assert!(!m.is_empty());
    assert!(m.remove(&1).is_some());
    assert!(m.is_empty());
}

#[test]
fn test_pop() {
    let mut m = RedBlackTree::new();
    m.insert(3, 14);
    m.insert(1, 2);
    m.insert(4, 5);
    m.insert(2, 6);
    assert_eq!(m.len(), 4);
    assert_eq!(m.pop_first(), Some((1, 2)));
    assert_eq!(m.len(), 3);
    assert_eq!(m.pop_last(), Some((4, 5)));
    assert_eq!(m.len(), 2);
    assert_eq!(m.get_first(), Some((&2, &6)));
    assert_eq!(m.get_last(), Some((&3, &14)));
}

#[test]
fn test_find() {
    let mut m = RedBlackTree::new();
    assert!(m.get(&1).is_none());
    m.insert(1, 2);
    match m.get(&1) {
        None => panic!(),
        Some(v) => assert_eq!(*v, 2),
    }
}

#[test]
fn rbt_get_after_insert_of_absent_key() {
    let mut m = RedBlackTree::new();
    for i in 0..50 {
        m.insert(i * 2, i);
    }
    m.insert(33, 1000);
    assert_eq!(m.get(&33), Some(&1000));
    assert_eq!(m.len(), 51);
}

#[test]
fn rbt_remove_undoes_insert() {
    let mut m = RedBlackTree::new();
    for i in 0..20 {
        m.insert(i, i * 10);
    }
    m.insert(100, 7);
    assert_eq!(m.remove(&100), Some(7));
    assert_eq!(m.len(), 20);
    assert_eq!(m.get(&100), None);
    for i in 0..20 {
        assert_eq!(m.get(&i), Some(&(i * 10)));
    }
}

#[test]
fn rbt_replace_on_absent_key_inserts() {
    let mut m = RedBlackTree::new();
    assert_eq!(m.replace_or_insert(9, 1), None);
    assert_eq!(m.get(&9), Some(&1));
    assert_eq!(m.len(), 1);
}

#[test]
fn rbt_duplicates_keep_first_for_lookups() {
    let mut m = RedBlackTree::new();
    m.insert(5, 'a');
    m.insert(5, 'b');
    m.insert(5, 'c');
    assert_eq!(m.get(&5), Some(&'a'));
    assert_eq!(m.remove(&5), Some('a'));
    assert_eq!(m.get(&5), Some(&'b'));
    assert_eq!(m.len(), 2);
}

#[test]
fn rbt_pop_in_key_order() {
    let mut m = RedBlackTree::new();
    for i in [7, 3, 9, 1, 5, 8, 2] {
        m.insert(i, i + 100);
    }
    let mut got = Vec::new();
    while let Some((k, v)) = m.pop_first() {
        assert_eq!(v, k + 100);
        got.push(k);
    }
    assert_eq!(got, vec![1, 2, 3, 5, 7, 8, 9]);
    assert!(m.is_empty());
    assert_eq!(m.pop_last(), None);
}

#[test]
fn rbt_first_and_last_mut() {
    let mut m = RedBlackTree::new();
    m.insert(2, 20);
    m.insert(1, 10);
    m.insert(3, 30);
    if let Some((k, v)) = m.get_first_mut() {
        assert_eq!(*k, 1);
        *v = 11;
    }
    if let Some((k, v)) = m.get_last_mut() {
        assert_eq!(*k, 3);
        *v = 33;
    }
    assert_eq!(m.get(&1), Some(&11));
    assert_eq!(m.get(&3), Some(&33));
    assert!(m.contains_key(&2));
    assert!(!m.contains_key(&4));
}

#[test]
fn rbt_clear_and_large() {
    let mut m = RedBlackTree::new();
    for i in 100..5000 {
        m.insert(i, i + 1);
    }
    assert_eq!(m.get(&999), Some(&1000));
    for i in 100..3000 {
        assert_eq!(m.remove(&i), Some(i + 1));
    }
    assert_eq!(m.len(), 2000);
    assert_eq!(m.get_first(), Some((&3000, &3001)));
    m.clear();
    assert!(m.is_empty());
    assert_eq!(m.len(), 0);
}

#[test]
fn rbt_insert_adds_and_remove_takes_one_entry() {
    let mut m = RedBlackTree::new();
    m.insert(3, 30);
    m.insert(1, 10);
    m.insert(3, 31);
    assert_eq!(m.len(), 3);
    assert!(m.contains_key(&3));
    assert_eq!(m.remove(&3), Some(30));
    assert_eq!(m.len(), 2);
    assert_eq!(m.get(&3), Some(&31));
    assert_eq!(m.get(&1), Some(&10));
}
