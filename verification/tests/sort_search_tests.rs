use rustunsafedatastruct::quicksortbinarysearch::{binary_search, quick_sort, shuffle};
use rustunsafedatastruct::vec::ManVec;

#[test]
fn test_sort() {
    let mut v = ManVec::new();
    v.push(1);
    v.push(5);
    v.push(3);
    v.push(2);
    v.push(0);
    shuffle(&mut v);
    let len = v.len() - 1;
    quick_sort(&mut v, 0, len as isize);

    let vv: &[i32] = v.as_slice();

    assert_eq!(&vv[..], &[0, 1, 2, 3, 5]);
}

#[test]
fn test_binary_search() {
    let mut v = ManVec::new();
    v.push(1);
    v.push(5);
    v.push(3);
    v.push(2);
    v.push(0);
    let len = v.len() - 1;
    quick_sort(&mut v, 0, len as isize);

    let vv: &[i32] = v.as_slice();

    assert_eq!(&vv[..], &[0, 1, 2, 3, 5]);

    assert_eq!(Some(4), binary_search(&5, &vv));
}

#[test]
fn sort_then_search_finds_everything() {
    let mut v = ManVec::new();
    for i in 0..1000i64 {
        v.push((i * 7919) % 1000 - 500);
    }
    shuffle(&mut v);
    let last = v.len() - 1;
    quick_sort(&mut v, 0, last as isize);
    let s = v.as_slice();
    for w in s.windows(2) {
        assert!(w[0] <= w[1]);
    }
    for x in -500..500i64 {
        let i = binary_search(&x, s).unwrap();
        assert_eq!(s[i], x);
    }
}

#[test]
fn search_missing_key_between_elements() {
    let s = [0, 1, 2, 3, 5];
    assert_eq!(binary_search(&4, &s), None);
    assert_eq!(binary_search(&0, &s), Some(0));
    let one = [7];
    assert_eq!(binary_search(&7, &one), Some(0));
}

#[test]
fn sort_with_duplicates_and_subrange() {
    let mut v = ManVec::new();
    for x in [9, 3, 3, 8, 1, 3, 0, 9, 2] {
        v.push(x);
    }
    quick_sort(&mut v, 2, 6);
    assert_eq!(v.as_slice(), &[9, 3, 0, 1, 3, 3, 8, 9, 2]);
    quick_sort(&mut v, 0, 8);
    assert_eq!(v.as_slice(), &[0, 1, 2, 3, 3, 3, 8, 9, 9]);
    quick_sort(&mut v, 5, 2);
    assert_eq!(v.as_slice(), &[0, 1, 2, 3, 3, 3, 8, 9, 9]);
}

#[test]
fn shuffle_keeps_elements_and_moves_them() {
    let mut moved = false;
    for _ in 0..5 {
        let mut v = ManVec::new();
        for i in 0..20 {
            v.push(i);
        }
        shuffle(&mut v);
        let mut sorted: Vec<i32> = v.as_slice().to_vec();
        if sorted != (0..20).collect::<Vec<i32>>() {
            moved = true;
        }
        sorted.sort();
        assert_eq!(sorted, (0..20).collect::<Vec<i32>>());
    }
    assert!(moved);
}
