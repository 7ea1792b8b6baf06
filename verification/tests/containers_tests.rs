use rustunsafedatastruct::bsttree::BSTTree;
use rustunsafedatastruct::list::List;
use rustunsafedatastruct::maxheap::{swap, MaxHeap};
use rustunsafedatastruct::tree::Tree;
use rustunsafedatastruct::vec::ManVec;

#[test]
fn manvec_push_grows_by_doubling() {
    let mut v = ManVec::new();
    assert!(v.is_null());
    for i in 0..5 {
        v.push(i);
    }
    assert_eq!(v.len(), 5);
    assert!(!v.is_null());
    assert_eq!(v.get(4), Some(&4));
    assert_eq!(v.get(5), None);
    assert_eq!(v.pop(), Some(4));
    assert_eq!(v.len(), 4);
}

#[test]
fn manvec_insert_remove_swap() {
    let mut v = ManVec::capacity(2);
    v.push(10);
    v.push(20);
    v.insert(1, 15);
    assert_eq!(v.as_slice(), &[10, 15, 20]);
    v.swap(0, 2);
    assert_eq!(v.as_slice(), &[20, 15, 10]);
    assert_eq!(v.remove(1), 15);
    assert_eq!(v.as_slice(), &[20, 10]);
    if let Some(x) = v.get_mut(1) {
        *x = 11;
    }
    assert_eq!(v.as_slice(), &[20, 11]);
    assert!(v.get_mut(2).is_none());
    let w = ManVec::newinit('x', 4);
    assert_eq!(w.as_slice(), &['x']);
    let mut e: ManVec<u8> = ManVec::new();
    assert_eq!(e.pop(), None);
}

#[test]
fn manvec_insert_into_new_vector_is_a_push() {
    let mut v: ManVec<i32> = ManVec::new();
    v.insert(0, 7);
    assert_eq!(v.len(), 1);
    assert_eq!(v.get(0), Some(&7));
    v.insert(0, 6);
    v.insert(2, 8);
    assert_eq!(v.as_slice(), &[6, 7, 8]);
}

#[test]
fn list_ends_and_search() {
    let mut l = List::new();
    for i in 0..5 {
        l.insert_after(i);
    }
    l.insert_before(-1);
    assert!(l.find(&3));
    assert!(!l.find(&7));
    l.remove_current(&3);
    assert!(!l.find(&3));
    assert_eq!(l.remove_after(), Some(4));
    let mut got = Vec::new();
    let mut it = l.iter();
    while let Some(x) = it.next() {
        got.push(*x);
    }
    assert_eq!(got, vec![-1, 0, 1, 2]);
}

#[test]
fn list_remove_after_undoes_insert_after() {
    let mut l = List::newinit(7u32);
    l.insert_after(8);
    assert_eq!(l.remove_after(), Some(8));
    assert_eq!(l.remove_after(), Some(7));
    assert_eq!(l.remove_after(), None);
}

#[test]
fn list_mut_and_owning_iterators() {
    let mut l = List::new();
    for i in 1..4 {
        l.insert_after(i);
    }
    let mut it = l.iter_mut();
    while let Some(x) = it.next() {
        *x *= 10;
    }
    let mut got = Vec::new();
    let mut it = l.into_iter();
    while let Some(x) = it.next() {
        got.push(x);
    }
    assert_eq!(got, vec![10, 20, 30]);
}

#[test]
fn maxheap_pops_in_decreasing_order() {
    let mut mh = MaxHeap::new();
    assert_eq!(mh.peek(), None);
    for x in [1, 4, 7, 9, 0, 13, 15] {
        mh.push(x);
    }
    assert_eq!(mh.peek(), Some(&15));
    assert_eq!(mh.as_slice()[0], 15);
    let mut got = Vec::new();
    while let Some(x) = mh.pop() {
        got.push(x);
    }
    assert_eq!(got, vec![15, 13, 9, 7, 4, 1, 0]);
    assert_eq!(mh.pop(), None);
}

#[test]
fn maxheap_array_order_follows_swim_and_sink() {
    let mut mh = MaxHeap::new();
    mh.push(1);
    mh.push(4);
    assert_eq!(mh.as_slice(), &[4, 1]);
    mh.push(7);
    assert_eq!(mh.as_slice(), &[7, 1, 4]);
    mh.push(9);
    assert_eq!(mh.as_slice(), &[9, 7, 4, 1]);
    assert_eq!(mh.pop(), Some(9));
    assert_eq!(mh.as_slice(), &[7, 1, 4]);
}

#[test]
fn maxheap_layout_is_a_heap() {
    let mut mh = MaxHeap::new();
    for x in [5, 3, 8, 1, 9, 2, 7] {
        mh.push(x);
    }
    let s = mh.as_slice();
    for i in 1..s.len() {
        assert!(s[(i - 1) / 2] >= s[i]);
    }
    mh.sink();
    assert_eq!(mh.peek(), Some(&9));
}

#[test]
fn swap_exchanges_values() {
    let mut a = String::from("left");
    let mut b = String::from("right");
    swap(&mut a, &mut b);
    assert_eq!(a, "right");
    assert_eq!(b, "left");
}

#[test]
fn tree_traversals() {
    let l = Tree::create_node(2, None, None);
    let r = Tree::create_node(3, None, None);
    let root = Tree::create_node(1, Some(l), Some(r));
    let t = Tree::new_as_node(root);
    let pre: Vec<i32> = t.first_root().into_iter().copied().collect();
    let mid: Vec<i32> = t.middle_root().into_iter().copied().collect();
    let post: Vec<i32> = t.last_root().into_iter().copied().collect();
    assert_eq!(pre, vec![1, 2, 3]);
    assert_eq!(mid, vec![2, 1, 3]);
    assert_eq!(post, vec![2, 3, 1]);
    let single = Tree::new('q');
    assert_eq!(single.first_root(), vec![&'q']);
}

#[test]
fn bsttree_insert_and_search() {
    let mut root = BSTTree::newnew();
    for x in [4, 6, 5, 3, 10, 9] {
        root.insert_node(BSTTree::create_node(x, None, None));
    }
    let mid: Vec<i32> = root.middle_root().into_iter().copied().collect();
    assert_eq!(mid, vec![3, 4, 5, 6, 9, 10]);
    assert!(root.search_node(&9));
    assert!(!root.search_node(&7));
    root.insert_node(BSTTree::create_node(5, None, None));
    let mid: Vec<i32> = root.middle_root().into_iter().copied().collect();
    assert_eq!(mid, vec![3, 4, 5, 5, 6, 9, 10]);
}

#[test]
fn bsttree_insert_subtree_as_block() {
    let mut root = BSTTree::new(10);
    let sub = BSTTree::create_node(
        3,
        Some(BSTTree::create_node(1, None, None)),
        Some(BSTTree::create_node(4, None, None)),
    );
    root.insert_node(sub);
    let mid: Vec<i32> = root.middle_root().into_iter().copied().collect();
    assert_eq!(mid, vec![1, 3, 4, 10]);
    let other = BSTTree::new_as_node(BSTTree::create_node(2, None, None));
    let mid: Vec<i32> = other.middle_root().into_iter().copied().collect();
    assert_eq!(mid, vec![2]);
}
