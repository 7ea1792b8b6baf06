use vstd::prelude::*;
use vstd::multiset::Multiset;
use crate::key::IntKey;
use crate::vec::{ManVec, cap_after_push};

verus! {

broadcast use vstd::seq_lib::to_multiset_update, vstd::multiset::group_multiset_axioms;

/// Exchanges the values behind `t1` and `t2`.
pub fn swap<T>(t1: &mut T, t2: &mut T)
    ensures
        *final(t1) == *old(t2),
        *final(t2) == *old(t1),
{
    std::mem::swap(t1, t2);
}

/// The index of the parent of node `i` of a binary heap laid out in an array.
pub open spec fn parent(i: int) -> int {
    (i - 1) / 2
}

/// `s` with the elements at `i` and `j` exchanged.
pub open spec fn swapped<T>(s: Seq<T>, i: int, j: int) -> Seq<T> {
    s.update(i, s[j]).update(j, s[i])
}

/// The array after the node at `i` climbs: while it is greater than its
/// parent, the two trade places.
pub open spec fn sift_up<T: IntKey>(s: Seq<T>, i: int) -> Seq<T>
    decreases i,
{
    if 0 < i < s.len() && s[parent(i)].key_int() < s[i].key_int() {
        sift_up(swapped(s, i, parent(i)), parent(i))
    } else {
        s
    }
}

/// The child of node `i` that a sinking node trades places with: the right
/// one when it is greater than the left one, else the left one.
pub open spec fn larger_child<T: IntKey>(s: Seq<T>, i: int) -> int {
    if 2 * i + 2 < s.len() && s[2 * i + 1].key_int() < s[2 * i + 2].key_int() {
        2 * i + 2
    } else {
        2 * i + 1
    }
}

/// The array after the node at `i` sinks: while it is less than its larger
/// child, the two trade places.
pub open spec fn sift_down<T: IntKey>(s: Seq<T>, i: int) -> Seq<T>
    decreases s.len() - i,
{
    if 0 <= i && 2 * i + 1 < s.len() && s[i].key_int() < s[larger_child(s, i)].key_int() {
        sift_down(swapped(s, i, larger_child(s, i)), larger_child(s, i))
    } else {
        s
    }
}

/// Every node but the root is at most its parent.
pub open spec fn is_heap<T: IntKey>(s: Seq<T>) -> bool {
    forall|i: int| 0 < i < s.len() ==> #[trigger] s[parent(i)].key_int() >= s[i].key_int()
}

/// Every node but `k` is at most its parent, and the children of `k` are at
/// most the parent of `k`: what holds while a node climbs.
pub open spec fn heap_up_except<T: IntKey>(s: Seq<T>, k: int) -> bool {
    &&& forall|i: int| 0 < i < s.len() && i != k ==> #[trigger] s[parent(i)].key_int() >= s[i].key_int()
    &&& forall|i: int| 0 < i < s.len() && parent(i) == k && k > 0 ==> s[parent(k)].key_int() >= #[trigger] s[i].key_int()
}

/// Every node whose parent is not `k` is at most its parent, and the
/// children of `k` are at most the parent of `k`: what holds while a node
/// sinks.
pub open spec fn heap_down_except<T: IntKey>(s: Seq<T>, k: int) -> bool {
    &&& forall|i: int| 0 < i < s.len() && parent(i) != k ==> #[trigger] s[parent(i)].key_int() >= s[i].key_int()
    &&& forall|i: int| 0 < i < s.len() && parent(i) == k && k > 0 ==> s[parent(k)].key_int() >= #[trigger] s[i].key_int()
}

/// Exchanging two places keeps the multiset of elements.
proof fn lemma_swap_multiset<T>(s: Seq<T>, i: int, j: int)
    requires
        0 <= i < s.len(),
        0 <= j < s.len(),
    ensures
        s.update(i, s[j]).update(j, s[i]).to_multiset() == s.to_multiset(),
{
    let s1 = s.update(i, s[j]);
    let s2 = s1.update(j, s[i]);
    if i == j {
        assert(s2 =~= s);
    } else {
        vstd::seq_lib::to_multiset_contains(s, s[i]);
        vstd::seq_lib::to_multiset_contains(s1, s1[j]);
        assert(s.contains(s[i]));
        assert(s1.contains(s1[j]));
        assert(s1[j] == s[j]);
        assert(s1.to_multiset() == s.to_multiset().insert(s[j]).remove(s[i]));
        assert(s2.to_multiset() == s1.to_multiset().insert(s[i]).remove(s[j]));
        assert forall|x: T| s2.to_multiset().count(x) == s.to_multiset().count(x) by {
        }
        assert(s2.to_multiset() =~= s.to_multiset());
    }
}

/// In a heap, the root is at least every node.
proof fn lemma_root_max<T: IntKey>(s: Seq<T>, i: int)
    requires
        is_heap(s),
        0 <= i < s.len(),
    ensures
        s[0].key_int() >= s[i].key_int(),
    decreases i,
{
    if i > 0 {
        assert(s[parent(i)].key_int() >= s[i].key_int());
        lemma_root_max(s, parent(i));
    }
}

/// A max-heap: the greatest element is at hand.
pub struct MaxHeap<T> {
    data: ManVec<T>,
}

impl<T> View for MaxHeap<T> {
    type V = Multiset<T>;

    closed spec fn view(&self) -> Multiset<T> {
        self.data@.to_multiset()
    }
}

/// `x` is a greatest element of `m`.
pub open spec fn is_max_of<T: IntKey>(m: Multiset<T>, x: T) -> bool {
    &&& m.count(x) > 0
    &&& forall|y: T| m.count(y) > 0 ==> y.key_int() <= x.key_int()
}

impl<T: IntKey> MaxHeap<T> {
    /// The elements, in the order of the array that holds the heap.
    pub closed spec fn layout(&self) -> Seq<T> {
        self.data@
    }

    /// The array is a heap.
    pub closed spec fn wf(&self) -> bool {
        &&& self.data.wf()
        &&& is_heap(self.data@)
    }

    /// The array keeps within its capacity.
    pub closed spec fn array_ok(&self) -> bool {
        self.data.wf()
    }

    /// The capacity that the array has grown to.
    pub closed spec fn capacity(&self) -> nat {
        self.data.capacity_of()
    }

    /// One more element fits without the capacity of the array overflowing.
    pub open spec fn has_room(&self) -> bool {
        self.layout().len() < self.capacity() || self.capacity() == 0 || 2 * self.capacity() <= usize::MAX
    }

    /// A heap never holds more elements than the capacity of its array.
    pub proof fn lemma_len_within_capacity(&self)
        requires
            self.wf(),
        ensures
            self.layout().len() <= self.capacity(),
            self@.len() == self.layout().len(),
    {
        crate::vec::lemma_capacity_covers_length(self.data);
        vstd::seq_lib::to_multiset_len(self.data@);
    }

    /// The heap is a heap but perhaps at its root.
    pub closed spec fn heap_but_root(&self) -> bool {
        heap_down_except(self.data@, 0)
    }

    /// The root of a non-empty heap is a greatest element.
    proof fn lemma_max(&self)
        requires
            self.wf(),
            self.data@.len() > 0,
        ensures
            is_max_of(self@, self.data@[0]),
    {
        let s = self.data@;
        assert(s.to_multiset().count(s[0]) > 0) by {
            assert(s.contains(s[0]));
            vstd::seq_lib::to_multiset_contains(s, s[0]);
        }
        assert forall|y: T| self@.count(y) > 0 implies y.key_int() <= s[0].key_int() by {
            vstd::seq_lib::to_multiset_contains(s, y);
            let i = choose|i: int| 0 <= i < s.len() && s[i] == y;
            lemma_root_max(s, i);
        }
    }

    /// The elements, in the order of the array that holds the heap.
    pub fn as_slice(&self) -> (r: &[T])
        ensures
            r@ == self.layout(),
    {
        self.data.as_slice()
    }

    /// An empty heap.
    pub fn new() -> (r: Self)
        ensures
            r.wf(),
            r@ == Multiset::<T>::empty(),
            r.layout() == Seq::<T>::empty(),
            r.capacity() == 0,
    {
        let r = MaxHeap { data: ManVec::new() };
        proof {
            vstd::seq_lib::to_multiset_len(r.data@);
            assert(r@.len() == 0);
        }
        r
    }

    /// Adds `t`.
    pub fn push(&mut self, t: T)
        requires
            old(self).wf(),
            old(self).has_room(),
        ensures
            final(self).wf(),
            final(self)@ == old(self)@.insert(t),
            final(self).layout().len() == old(self).layout().len() + 1,
            final(self).layout() == sift_up(old(self).layout().push(t), old(self).layout().len() as int),
            final(self).capacity() == cap_after_push(old(self).layout().len(), old(self).capacity()),
    {
        let ghost s0 = self.data@;
        proof {
            vstd::seq_lib::to_multiset_build(s0, t);
        }
        if self.data.is_null() {
            self.data.push(t);
            proof {
                assert(is_heap(self.data@)) by {
                    assert(self.data@.len() == 1);
                }
            }
            return;
        }
        self.data.push(t);
        proof {
            assert(heap_up_except(self.data@, self.data@.len() - 1)) by {
                assert forall|i: int| 0 < i < self.data@.len() && i != self.data@.len() - 1 implies #[trigger] self.data@[parent(i)].key_int() >= self.data@[i].key_int() by {
                    assert(s0[parent(i)].key_int() >= s0[i].key_int());
                }
            }
        }
        self.swim();
    }

    /// The greatest element, if any.
    pub fn peek(&self) -> (r: Option<&T>)
        requires
            self.wf(),
        ensures
            r.is_none() == (self@.len() == 0),
            r.is_some() ==> is_max_of(self@, *r.unwrap()) && *r.unwrap() == self.layout()[0],
    {
        proof {
            vstd::seq_lib::to_multiset_len(self.data@);
        }
        if self.data.is_null() {
            None
        } else {
            proof {
                self.lemma_max();
            }
            self.data.get(0)
        }
    }

    /// Removes the greatest element, if any, and hands it back.
    pub fn pop(&mut self) -> (r: Option<T>)
        requires
            old(self).wf(),
        ensures
            final(self).wf(),
            r.is_none() == (old(self)@.len() == 0),
            r.is_none() ==> final(self)@ == old(self)@,
            r.is_some() ==> is_max_of(old(self)@, r.unwrap()) && final(self)@ == old(self)@.remove(r.unwrap()),
            r.is_some() ==> r.unwrap() == old(self).layout()[0],
            r.is_some() ==> final(self).layout().len() == old(self).layout().len() - 1,
            r.is_some() ==> final(self).layout() == sift_down(
                swapped(old(self).layout(), 0, old(self).layout().len() - 1).drop_last(),
                0,
            ),
            final(self).capacity() == old(self).capacity(),
    {
        proof {
            vstd::seq_lib::to_multiset_len(self.data@);
        }
        if self.data.is_null() {
            None
        } else if self.data.len() == 1 {
            let ghost s0 = self.data@;
            proof {
                self.lemma_max();
            }
            let t = self.data.pop();
            proof {
                assert(s0 =~= seq![s0[0]]);
                assert(self.data@ =~= Seq::<T>::empty());
                vstd::seq_lib::to_multiset_build(Seq::<T>::empty(), s0[0]);
                assert(Seq::<T>::empty().push(s0[0]) =~= s0);
                vstd::seq_lib::to_multiset_len(self.data@);
                assert(self@ =~= old(self)@.remove(s0[0]));
            }
            t
        } else {
            let ghost s0 = self.data@;
            proof {
                self.lemma_max();
            }
            let len = self.data.len();
            let index = len - 1;
            self.data.swap(0, index);
            let ghost s1 = self.data@;
            proof {
                lemma_swap_multiset(s0, 0, index as int);
            }
            let t = self.data.pop();
            let ghost s2 = self.data@;
            proof {
                assert(s1 == s2.push(s0[0]));
                vstd::seq_lib::to_multiset_build(s2, s0[0]);
                assert(s2.to_multiset() =~= s0.to_multiset().remove(s0[0]));
                assert(heap_down_except(s2, 0)) by {
                    assert forall|i: int| 0 < i < s2.len() && parent(i) != 0 implies #[trigger] s2[parent(i)].key_int() >= s2[i].key_int() by {
                        assert(s2[i] == s0[i]);
                        assert(s2[parent(i)] == s0[parent(i)]);
                        assert(s0[parent(i)].key_int() >= s0[i].key_int());
                    }
                }
            }
            self.sink();
            t
        }
    }

    /// Lets the last element climb to its place.
    fn swim(&mut self)
        requires
            old(self).data.wf(),
            old(self).data@.len() > 0,
            heap_up_except(old(self).data@, old(self).data@.len() - 1),
        ensures
            final(self).wf(),
            final(self)@ == old(self)@,
            final(self).data@.len() == old(self).data@.len(),
            final(self).data.capacity_of() == old(self).data.capacity_of(),
            final(self).data@ == sift_up(old(self).data@, old(self).data@.len() - 1),
    {
        let len = self.data.len();
        let mut index = len - 1;
        let ghost target = sift_up(self.data@, index as int);
        while index >= 1
            invariant
                self.data.wf(),
                self.data@.len() == len,
                index < len,
                heap_up_except(self.data@, index as int),
                self@ == old(self)@,
                self.data.capacity_of() == old(self).data.capacity_of(),
                sift_up(self.data@, index as int) == target,
                target == sift_up(old(self).data@, old(self).data@.len() - 1),
            decreases index,
        {
            let ghost s = self.data@;
            let i = (index - 1) / 2;
            let cur = self.data.get(index).unwrap();
            let parent_v = self.data.get(i).unwrap();
            if parent_v.key_lt(cur) {
                self.data.swap(index, i);
                proof {
                    lemma_swap_multiset(s, index as int, i as int);
                    let s2 = self.data@;
                    let k = index as int;
                    let p = i as int;
                    assert(p == parent(k));
                    assert(heap_up_except(s2, p)) by {
                        assert forall|j: int| 0 < j < s2.len() && j != p implies #[trigger] s2[parent(j)].key_int() >= s2[j].key_int() by {
                            if j == k {
                            } else if parent(j) == k {
                                assert(s[parent(k)].key_int() >= s[j].key_int());
                            } else if parent(j) == p {
                                assert(s[parent(j)].key_int() >= s[j].key_int());
                            } else {
                                assert(s[parent(j)].key_int() >= s[j].key_int());
                            }
                        }
                        assert forall|j: int| 0 < j < s2.len() && parent(j) == p && p > 0 implies s2[parent(p)].key_int() >= #[trigger] s2[j].key_int() by {
                            assert(s[parent(p)].key_int() >= s[p].key_int());
                            if j != k {
                                assert(s[parent(j)].key_int() >= s[j].key_int());
                            }
                        }
                    }
                }
                index = i;
            } else {
                proof {
                    assert(is_heap(s)) by {
                        assert forall|j: int| 0 < j < s.len() implies #[trigger] s[parent(j)].key_int() >= s[j].key_int() by {
                        }
                    }
                    assert(heap_up_except(s, 0));
                }
                index = 0;
            }
        }
        proof {
            assert(is_heap(self.data@)) by {
                assert forall|j: int| 0 < j < self.data@.len() implies #[trigger] self.data@[parent(j)].key_int() >= self.data@[j].key_int() by {
                }
            }
        }
    }

    /// Lets the root sink to its place: on a heap but perhaps at its root,
    /// the result is a heap.
    pub fn sink(&mut self)
        ensures
            final(self)@ == old(self)@,
            final(self).layout().len() == old(self).layout().len(),
            final(self).capacity() == old(self).capacity(),
            final(self).layout() == sift_down(old(self).layout(), 0),
            old(self).array_ok() ==> final(self).array_ok(),
            old(self).array_ok() && old(self).heap_but_root() ==> final(self).wf(),
    {
        let len = self.data.len();
        if len == 0 || len == 1 {
            proof {
                assert(is_heap(self.data@)) by {
                    assert forall|j: int| 0 < j < self.data@.len() implies #[trigger] self.data@[parent(j)].key_int() >= self.data@[j].key_int() by {
                    }
                }
            }
            return;
        }
        let ghost good = self.data.wf() && self.heap_but_root();
        let ghost target = sift_down(self.data@, 0);
        let mut index: usize = 0;
        let mut done = false;
        while !done && index < len / 2
            invariant
                self.data@.len() == len,
                len >= 2,
                index < len,
                self@ == old(self)@,
                self.data.capacity_of() == old(self).data.capacity_of(),
                old(self).data.wf() ==> self.data.wf(),
                good == (old(self).data.wf() && old(self).heap_but_root()),
                good && !done ==> heap_down_except(self.data@, index as int),
                good && done ==> is_heap(self.data@),
                !done ==> sift_down(self.data@, index as int) == target,
                done ==> self.data@ == target,
                target == sift_down(old(self).data@, 0),
            decreases len - index, (if done { 0int } else { 1int }),
        {
            let ghost s = self.data@;
            let mut cur_index = 2 * index + 1;
            proof {
                assert(parent(cur_index as int) == index);
                assert(parent(cur_index as int + 1) == index);
            }
            let cur = self.data.get(index).unwrap();
            let mut larger = self.data.get(cur_index).unwrap();
            if cur_index + 1 < len {
                let right = self.data.get(cur_index + 1).unwrap();
                if larger.key_lt(right) {
                    larger = right;
                    cur_index = cur_index + 1;
                }
            }
            if cur.key_lt(larger) {
                self.data.swap(index, cur_index);
                proof {
                    lemma_swap_multiset(s, index as int, cur_index as int);
                    if good {
                        let s2 = self.data@;
                        let k = index as int;
                        let c = cur_index as int;
                        assert(parent(c) == k);
                        assert(heap_down_except(s2, c)) by {
                            assert forall|j: int| 0 < j < s2.len() && parent(j) != c implies #[trigger] s2[parent(j)].key_int() >= s2[j].key_int() by {
                                if j == c {
                                } else if parent(j) == k {
                                    assert(j == 2 * k + 1 || j == 2 * k + 2);
                                } else if j == k {
                                    assert(s[parent(k)].key_int() >= s[c].key_int());
                                } else {
                                    assert(s[parent(j)].key_int() >= s[j].key_int());
                                }
                            }
                            assert forall|j: int| 0 < j < s2.len() && parent(j) == c && c > 0 implies s2[parent(c)].key_int() >= #[trigger] s2[j].key_int() by {
                                assert(s[parent(j)].key_int() >= s[j].key_int());
                            }
                        }
                    }
                }
                index = cur_index;
            } else {
                proof {
                    if good {
                        assert(is_heap(s)) by {
                            assert forall|j: int| 0 < j < s.len() implies #[trigger] s[parent(j)].key_int() >= s[j].key_int() by {
                                if parent(j) == index {
                                    assert(j == 2 * index + 1 || j == 2 * index + 2);
                                }
                            }
                        }
                    }
                }
                done = true;
            }
        }
        proof {
            if good && !done {
                assert(is_heap(self.data@)) by {
                    assert forall|j: int| 0 < j < self.data@.len() implies #[trigger] self.data@[parent(j)].key_int() >= self.data@[j].key_int() by {
                        if parent(j) == index {
                            assert(2 * index + 1 <= j);
                        }
                    }
                }
            }
        }
    }
}

// ----------------------------------------------------------------------
// Laws
// ----------------------------------------------------------------------

/// A multiset has one greatest element at most: `peek` shows the element
/// that `pop` takes out.
pub proof fn lemma_max_unique<T: IntKey>(m: Multiset<T>, x: T, y: T)
    requires
        is_max_of(m, x),
        is_max_of(m, y),
    ensures
        x == y,
{
    assert(x.key_int() <= y.key_int());
    assert(y.key_int() <= x.key_int());
    T::lemma_key_injective(x, y);
}

/// Pushing an element at least every other one, then popping, gives that
/// element back and the heap as it was.
pub proof fn lemma_pop_after_push_max<T: IntKey>(before: Multiset<T>, t: T, popped: T, after: Multiset<T>)
    requires
        forall|y: T| before.count(y) > 0 ==> y.key_int() <= t.key_int(),
        is_max_of(before.insert(t), popped),
        after == before.insert(t).remove(popped),
    ensures
        popped == t,
        after == before,
{
    assert(is_max_of(before.insert(t), t));
    lemma_max_unique(before.insert(t), t, popped);
    assert(after =~= before);
}

} // verus!
