use vstd::prelude::*;
use crate::key::IntKey;
use crate::ordered::{has_key, first_index, is_first_match, lemma_first_match_unique, lemma_has_key_first_match};

verus! {

// ----------------------------------------------------------------------
// Chains of nodes
// ----------------------------------------------------------------------

/// A node of a list: one element and the rest of the list.
pub struct Node<T> {
    data: T,
    next: Option<Box<Node<T>>>,
}

/// The elements from `link` on, first to last.
pub closed spec fn elems_of<T>(link: Option<Box<Node<T>>>) -> Seq<T>
    decreases link,
{
    match link {
        None => Seq::empty(),
        Some(b) => seq![b.data] + elems_of(b.next),
    }
}

/// Some element of `s` stands for the integer `x`.
pub open spec fn has_elem<T: IntKey>(s: Seq<T>, x: int) -> bool {
    exists|i: int| 0 <= i < s.len() && s[i].key_int() == x
}

/// `i` is the first index of `s` whose element stands for `x`.
pub open spec fn is_first_elem<T: IntKey>(s: Seq<T>, x: int, i: int) -> bool {
    &&& 0 <= i < s.len()
    &&& s[i].key_int() == x
    &&& forall|j: int| 0 <= j < i ==> s[j].key_int() != x
}

/// The first index of `s` whose element stands for `x`.
pub open spec fn first_elem<T: IntKey>(s: Seq<T>, x: int) -> int {
    choose|i: int| is_first_elem(s, x, i)
}

/// The empty chain holds nothing; a node holds its element, then the rest.
proof fn lemma_elems_unfold<T>(link: Option<Box<Node<T>>>)
    ensures
        link.is_none() ==> elems_of(link) == Seq::<T>::empty(),
        link.is_some() ==> elems_of(link) == seq![link.unwrap().data] + elems_of(link.unwrap().next),
        link.is_some() ==> elems_of(link).len() > 0 && elems_of(link)[0] == link.unwrap().data
            && elems_of(link).drop_first() == elems_of(link.unwrap().next),
{
    if let Some(b) = link {
        assert(elems_of(link).drop_first() =~= elems_of(b.next));
    }
}

/// A first match found in the tail of a sequence is one past a first match
/// of the whole when the head does not match.
proof fn lemma_first_elem_tail<T: IntKey>(s: Seq<T>, x: int)
    requires
        s.len() > 0,
        s[0].key_int() != x,
    ensures
        has_elem(s, x) == has_elem(s.drop_first(), x),
        has_elem(s, x) ==> first_elem(s, x) == first_elem(s.drop_first(), x) + 1
            && is_first_elem(s.drop_first(), x, first_elem(s.drop_first(), x)),
{
    let t = s.drop_first();
    if has_elem(s, x) {
        let i = choose|i: int| 0 <= i < s.len() && s[i].key_int() == x;
        assert(t[i - 1] == s[i]);
        lemma_first_elem_exists(t, x);
        let j = first_elem(t, x);
        assert(is_first_elem(s, x, j + 1)) by {
            assert forall|m: int| 0 <= m < j + 1 implies s[m].key_int() != x by {
                if m > 0 {
                    assert(s[m] == t[m - 1]);
                }
            }
        }
        lemma_first_elem_unique(s, x, j + 1);
    }
    if has_elem(t, x) {
        let i = choose|i: int| 0 <= i < t.len() && t[i].key_int() == x;
        assert(s[i + 1] == t[i]);
    }
}

/// A first match is the one that `first_elem` picks.
proof fn lemma_first_elem_unique<T: IntKey>(s: Seq<T>, x: int, i: int)
    requires
        is_first_elem(s, x, i),
    ensures
        first_elem(s, x) == i,
        has_elem(s, x),
{
    let j = first_elem(s, x);
    assert(is_first_elem(s, x, j));
    if j < i {
        assert(s[j].key_int() != x);
    } else if i < j {
        assert(s[i].key_int() != x);
    }
}

/// When some element matches, a first match exists.
proof fn lemma_first_elem_exists<T: IntKey>(s: Seq<T>, x: int)
    requires
        has_elem(s, x),
    ensures
        is_first_elem(s, x, first_elem(s, x)),
    decreases s.len(),
{
    if s[0].key_int() == x {
        assert(is_first_elem(s, x, 0));
    } else {
        let t = s.drop_first();
        let i = choose|i: int| 0 <= i < s.len() && s[i].key_int() == x;
        assert(t[i - 1] == s[i]);
        lemma_first_elem_exists(t, x);
        let j = first_elem(t, x);
        assert(is_first_elem(s, x, j + 1)) by {
            assert forall|m: int| 0 <= m < j + 1 implies s[m].key_int() != x by {
                if m > 0 {
                    assert(s[m] == t[m - 1]);
                }
            }
        }
    }
}

/// Appends `t` at the end of the chain.
fn push_back<T>(link: &mut Option<Box<Node<T>>>, t: T)
    ensures
        elems_of(*final(link)) == elems_of(*old(link)).push(t),
    decreases *old(link),
{
    proof {
        lemma_elems_unfold(*link);
    }
    match link {
        None => {
            *link = Some(Box::new(Node { data: t, next: None }));
            proof {
                lemma_elems_unfold(*link);
                lemma_elems_unfold(None::<Box<Node<T>>>);
                assert(elems_of(*link) =~= seq![t]);
            }
        },
        Some(b) => {
            let ghost d = b.data;
            let ghost rest = elems_of(b.next);
            push_back(&mut b.next, t);
            proof {
                assert(seq![d] + rest.push(t) =~= (seq![d] + rest).push(t));
            }
        },
    }
}

/// Removes the last element of the chain, if any.
fn pop_back<T>(link: &mut Option<Box<Node<T>>>) -> (r: Option<T>)
    ensures
        elems_of(*old(link)).len() == 0 ==> r.is_none() && elems_of(*final(link)) == elems_of(*old(link)),
        elems_of(*old(link)).len() > 0 ==> r == Some(elems_of(*old(link)).last()) && elems_of(*final(link))
            == elems_of(*old(link)).drop_last(),
    decreases *old(link),
{
    proof {
        lemma_elems_unfold(*link);
    }
    let last = match link {
        None => {
            return None;
        },
        Some(b) => b.next.is_none(),
    };
    if last {
        match link.take() {
            Some(b) => {
                proof {
                    lemma_elems_unfold(b.next);
                    lemma_elems_unfold(None::<Box<Node<T>>>);
                    assert(elems_of(*old(link)) =~= seq![b.data]);
                }
                Some(b.data)
            },
            None => None,
        }
    } else {
        match link {
            Some(b) => {
                let ghost d = b.data;
                let ghost rest = elems_of(b.next);
                proof {
                    lemma_elems_unfold(b.next);
                }
                let r = pop_back(&mut b.next);
                proof {
                    assert(seq![d] + rest.drop_last() =~= (seq![d] + rest).drop_last());
                }
                r
            },
            None => None,
        }
    }
}

/// Whether some element of the chain stands for the same integer as `t`.
fn contains_elem<T: IntKey>(link: &Option<Box<Node<T>>>, t: &T) -> (r: bool)
    ensures
        r == has_elem(elems_of(*link), t.key_int()),
{
    let ghost s = elems_of(*link);
    let mut cur = link;
    let ghost mut i: int = 0;
    while cur.is_some()
        invariant
            s == elems_of(*link),
            0 <= i <= s.len(),
            elems_of(*cur) == s.subrange(i, s.len() as int),
            forall|j: int| 0 <= j < i ==> s[j].key_int() != t.key_int(),
        decreases s.len() - i,
    {
        proof {
            lemma_elems_unfold(*cur);
        }
        match cur {
            Some(b) => {
                if b.data.key_eq(t) {
                    assert(s.subrange(i, s.len() as int)[0] == s[i]);
                    assert(s[i].key_int() == t.key_int());
                    return true;
                }
                proof {
                    assert(s.subrange(i, s.len() as int)[0] == s[i]);
                    assert(elems_of(b.next) =~= s.subrange(i + 1, s.len() as int));
                    i = i + 1;
                }
                cur = &b.next;
            },
            None => {},
        }
    }
    proof {
        lemma_elems_unfold(*cur);
        assert(i == s.len());
    }
    false
}

/// Removes the first element that stands for the same integer as `t`.
fn remove_first_elem<T: IntKey>(link: &mut Option<Box<Node<T>>>, t: &T) -> (r: Option<T>)
    ensures
        has_elem(elems_of(*old(link)), t.key_int()) ==> {
            let s = elems_of(*old(link));
            let i = first_elem(s, t.key_int());
            &&& r == Some(s[i])
            &&& elems_of(*final(link)) == s.remove(i)
        },
        !has_elem(elems_of(*old(link)), t.key_int()) ==> r.is_none() && elems_of(*final(link)) == elems_of(*old(link)),
    decreases *old(link),
{
    let ghost s = elems_of(*link);
    proof {
        lemma_elems_unfold(*link);
    }
    let here = match link {
        None => {
            return None;
        },
        Some(b) => b.data.key_eq(t),
    };
    if here {
        match link.take() {
            Some(b) => {
                proof {
                    assert(is_first_elem(s, t.key_int(), 0));
                    lemma_first_elem_unique(s, t.key_int(), 0);
                    assert(s.remove(0) =~= elems_of(b.next));
                }
                *link = b.next;
                Some(b.data)
            },
            None => None,
        }
    } else {
        match link {
            Some(b) => {
                let ghost d = b.data;
                let ghost rest = elems_of(b.next);
                proof {
                    lemma_first_elem_tail(s, t.key_int());
                }
                let r = remove_first_elem(&mut b.next, t);
                proof {
                    if has_elem(s, t.key_int()) {
                        let j = first_elem(rest, t.key_int());
                        assert(seq![d] + rest.remove(j) =~= s.remove(j + 1));
                    }
                }
                r
            },
            None => None,
        }
    }
}

/// The number of elements of the chain.
fn len_of<T>(link: &Option<Box<Node<T>>>) -> (r: usize)
    requires
        elems_of(*link).len() <= usize::MAX,
    ensures
        r == elems_of(*link).len(),
{
    let ghost s = elems_of(*link);
    let mut cur = link;
    let mut count: usize = 0;
    while cur.is_some()
        invariant
            s == elems_of(*link),
            s.len() <= usize::MAX,
            0 <= count <= s.len(),
            elems_of(*cur) == s.subrange(count as int, s.len() as int),
        decreases s.len() - count,
    {
        proof {
            lemma_elems_unfold(*cur);
        }
        match cur {
            Some(b) => {
                proof {
                    assert(elems_of(b.next) =~= s.subrange(count + 1, s.len() as int));
                }
                count = count + 1;
                cur = &b.next;
            },
            None => {},
        }
    }
    proof {
        lemma_elems_unfold(*cur);
    }
    count
}

/// A first match of a key found in the tail of a sequence of entries is one
/// past a first match of the whole when the head does not match.
proof fn lemma_first_match_tail<K: IntKey, V>(s: Seq<(K, V)>, k: int)
    requires
        s.len() > 0,
        s[0].0.key_int() != k,
    ensures
        has_key(s, k) == has_key(s.drop_first(), k),
        has_key(s, k) ==> first_index(s, k) == first_index(s.drop_first(), k) + 1,
{
    let t = s.drop_first();
    if has_key(s, k) {
        let i = choose|i: int| 0 <= i < s.len() && s[i].0.key_int() == k;
        assert(t[i - 1] == s[i]);
        lemma_has_key_first_match(t, k);
        let j = first_index(t, k);
        assert(is_first_match(s, k, j + 1)) by {
            assert forall|m: int| 0 <= m < j + 1 implies s[m].0.key_int() != k by {
                if m > 0 {
                    assert(s[m] == t[m - 1]);
                }
            }
        }
        lemma_first_match_unique(s, k, j + 1);
    }
    if has_key(t, k) {
        let i = choose|i: int| 0 <= i < t.len() && t[i].0.key_int() == k;
        assert(s[i + 1] == t[i]);
    }
}

/// The first entry of the chain whose key stands for the same integer as `k`.
pub(crate) fn find_entry<'a, K: IntKey, V>(link: &'a Option<Box<Node<(K, V)>>>, k: &K) -> (r: Option<&'a (K, V)>)
    ensures
        r.is_some() == has_key(elems_of(*link), k.key_int()),
        r.is_some() ==> *r.unwrap() == elems_of(*link)[first_index(elems_of(*link), k.key_int())],
{
    let ghost s = elems_of(*link);
    let mut cur = link;
    let ghost mut i: int = 0;
    while cur.is_some()
        invariant
            s == elems_of(*link),
            0 <= i <= s.len(),
            elems_of(*cur) == s.subrange(i, s.len() as int),
            forall|j: int| 0 <= j < i ==> s[j].0.key_int() != k.key_int(),
        decreases s.len() - i,
    {
        proof {
            lemma_elems_unfold(*cur);
        }
        match cur {
            Some(b) => {
                proof {
                    assert(s.subrange(i, s.len() as int)[0] == s[i]);
                }
                if b.data.0.key_eq(k) {
                    proof {
                        assert(is_first_match(s, k.key_int(), i));
                        lemma_first_match_unique(s, k.key_int(), i);
                    }
                    return Some(&b.data);
                }
                proof {
                    assert(elems_of(b.next) =~= s.subrange(i + 1, s.len() as int));
                    i = i + 1;
                }
                cur = &b.next;
            },
            None => {},
        }
    }
    proof {
        lemma_elems_unfold(*cur);
    }
    None
}

/// The first entry of the chain whose key stands for the same integer as `k`,
/// to change in place.
pub(crate) fn find_entry_mut<'a, K: IntKey, V>(link: &'a mut Option<Box<Node<(K, V)>>>, k: &K) -> (r: Option<&'a mut (K, V)>)
    ensures
        r.is_some() == has_key(elems_of(*old(link)), k.key_int()),
        r.is_some() ==> {
            let s = elems_of(*old(link));
            let i = first_index(s, k.key_int());
            &&& *r.unwrap() == s[i]
            &&& elems_of(*final(link)) == s.update(i, *final(r.unwrap()))
        },
        r.is_none() ==> *final(link) == *old(link),
    decreases *old(link),
{
    let ghost s = elems_of(*link);
    let ghost ol = *link;
    proof {
        lemma_elems_unfold(ol);
        if let Some(b) = ol {
            if b.data.0.key_int() == k.key_int() {
                assert(is_first_match(s, k.key_int(), 0));
                lemma_first_match_unique(s, k.key_int(), 0);
                assert forall|x: (K, V)| #[trigger] s.update(0, x) == seq![x] + elems_of(b.next) by {
                    assert(s.update(0, x) =~= seq![x] + elems_of(b.next));
                }
            } else {
                lemma_first_match_tail(s, k.key_int());
                if has_key(s, k.key_int()) {
                    lemma_has_key_first_match(elems_of(b.next), k.key_int());
                    let j = first_index(elems_of(b.next), k.key_int());
                    assert forall|x: (K, V)| #[trigger] s.update(j + 1, x) == seq![b.data] + elems_of(b.next).update(j, x) by {
                        assert(s.update(j + 1, x) =~= seq![b.data] + elems_of(b.next).update(j, x));
                    }
                }
            }
        }
    }
    match link {
        None => None,
        Some(b) => {
            if b.data.0.key_eq(k) {
                Some(&mut b.data)
            } else {
                find_entry_mut(&mut b.next, k)
            }
        },
    }
}

/// Removes the first entry of the chain whose key stands for the same integer
/// as `k`.
pub(crate) fn remove_entry<K: IntKey, V>(link: &mut Option<Box<Node<(K, V)>>>, k: &K) -> (r: Option<(K, V)>)
    ensures
        has_key(elems_of(*old(link)), k.key_int()) ==> {
            let s = elems_of(*old(link));
            let i = first_index(s, k.key_int());
            &&& r == Some(s[i])
            &&& elems_of(*final(link)) == s.remove(i)
        },
        !has_key(elems_of(*old(link)), k.key_int()) ==> r.is_none() && elems_of(*final(link)) == elems_of(*old(link)),
    decreases *old(link),
{
    let ghost s = elems_of(*link);
    proof {
        lemma_elems_unfold(*link);
    }
    let here = match link {
        None => {
            return None;
        },
        Some(b) => b.data.0.key_eq(k),
    };
    if here {
        match link.take() {
            Some(b) => {
                proof {
                    assert(is_first_match(s, k.key_int(), 0));
                    lemma_first_match_unique(s, k.key_int(), 0);
                    assert(s.remove(0) =~= elems_of(b.next));
                }
                *link = b.next;
                Some(b.data)
            },
            None => None,
        }
    } else {
        match link {
            Some(b) => {
                let ghost d = b.data;
                let ghost rest = elems_of(b.next);
                proof {
                    lemma_first_match_tail(s, k.key_int());
                }
                let r = remove_entry(&mut b.next, k);
                proof {
                    if has_key(s, k.key_int()) {
                        lemma_has_key_first_match(rest, k.key_int());
                        let j = first_index(rest, k.key_int());
                        assert(seq![d] + rest.remove(j) =~= s.remove(j + 1));
                    }
                }
                r
            },
            None => None,
        }
    }
}

/// Appends to `out`, in order, every entry of the chain as its key and its
/// value to change in place.  What the chain holds once those references are
/// done with is each key with the last value written through its reference.
fn collect_link<'a, K, V>(link: &'a mut Option<Box<Node<(K, V)>>>, out: &mut List<(&'a K, &'a mut V)>)
    ensures
        final(out)@.len() == old(out)@.len() + elems_of(*old(link)).len(),
        forall|i: int| 0 <= i < old(out)@.len() ==> #[trigger] final(out)@[i] == old(out)@[i],
        forall|i: int|
            0 <= i < elems_of(*old(link)).len() ==> *(#[trigger] final(out)@[old(out)@.len() + i]).0 == elems_of(
                *old(link),
            )[i].0 && *final(out)@[old(out)@.len() + i].1 == elems_of(*old(link))[i].1,
        elems_of(*final(link)).len() == elems_of(*old(link)).len(),
        forall|i: int|
            0 <= i < elems_of(*old(link)).len() ==> #[trigger] elems_of(*final(link))[i] == (
                elems_of(*old(link))[i].0,
                *final(final(out)@[old(out)@.len() + i].1),
            ),
    decreases *old(link),
{
    proof {
        lemma_elems_unfold(*link);
    }
    let ghost s = elems_of(*link);
    let ghost o: int = out@.len() as int;
    match link {
        None => {},
        Some(b) => {
            let n = &mut **b;
            let d = &mut n.data;
            let nx = &mut n.next;
            out.insert_after((&d.0, &mut d.1));
            let ghost mid = out@;
            collect_link(nx, out);
            proof {
                assert forall|i: int| 0 <= i < s.len() implies *(#[trigger] out@[o + i]).0 == s[i].0
                    && *out@[o + i].1 == s[i].1 by {
                    if i > 0 {
                        assert(out@[(o + 1) + (i - 1)] == out@[o + i]);
                    } else {
                        assert(out@[o] == mid[o]);
                    }
                }
            }
        },
    }
}

/// Appends to `out`, in order, a reference to each element of the chain, to
/// change it in place.  What the chain holds once those references are done
/// with is the last value written through each.
fn collect_elems<'a, T>(link: &'a mut Option<Box<Node<T>>>, out: &mut List<&'a mut T>)
    ensures
        final(out)@.len() == old(out)@.len() + elems_of(*old(link)).len(),
        forall|i: int| 0 <= i < old(out)@.len() ==> #[trigger] final(out)@[i] == old(out)@[i],
        forall|i: int|
            0 <= i < elems_of(*old(link)).len() ==> *(#[trigger] final(out)@[old(out)@.len() + i]) == elems_of(
                *old(link),
            )[i],
        elems_of(*final(link)).len() == elems_of(*old(link)).len(),
        forall|i: int|
            0 <= i < elems_of(*old(link)).len() ==> #[trigger] elems_of(*final(link))[i] == *final(
                final(out)@[old(out)@.len() + i]
            ),
    decreases *old(link),
{
    proof {
        lemma_elems_unfold(*link);
    }
    let ghost s = elems_of(*link);
    let ghost o: int = out@.len() as int;
    match link {
        None => {},
        Some(b) => {
            let n = &mut **b;
            let d = &mut n.data;
            let nx = &mut n.next;
            out.insert_after(d);
            let ghost mid = out@;
            collect_elems(nx, out);
            proof {
                assert forall|i: int| 0 <= i < s.len() implies *(#[trigger] out@[o + i]) == s[i] by {
                    if i > 0 {
                        assert(out@[(o + 1) + (i - 1)] == out@[o + i]);
                    } else {
                        assert(out@[o] == mid[o]);
                    }
                }
            }
        },
    }
}

// ----------------------------------------------------------------------
// The list
// ----------------------------------------------------------------------

/// A list of elements, first to last.
pub struct List<T> {
    head: Option<Box<Node<T>>>,
}

impl<T> View for List<T> {
    type V = Seq<T>;

    closed spec fn view(&self) -> Seq<T> {
        elems_of(self.head)
    }
}

impl<T> List<T> {
    /// An empty list.
    pub fn new() -> (r: Self)
        ensures
            r@ == Seq::<T>::empty(),
    {
        proof {
            lemma_elems_unfold(None::<Box<Node<T>>>);
        }
        List { head: None }
    }

    /// A list of the one element `t`.
    pub fn newinit(t: T) -> (r: Self)
        ensures
            r@ == seq![t],
    {
        let r = List { head: Some(Box::new(Node { data: t, next: None })) };
        proof {
            lemma_elems_unfold(r.head);
            lemma_elems_unfold(None::<Box<Node<T>>>);
            assert(r@ =~= seq![t]);
        }
        r
    }

    /// Adds `t` in front.
    pub fn insert_before(&mut self, t: T)
        ensures
            final(self)@ == seq![t] + old(self)@,
    {
        let rest = self.head.take();
        self.head = Some(Box::new(Node { data: t, next: rest }));
        proof {
            lemma_elems_unfold(self.head);
        }
    }

    /// Adds `t` at the end.
    pub fn insert_after(&mut self, t: T)
        ensures
            final(self)@ == old(self)@.push(t),
    {
        push_back(&mut self.head, t);
    }

    /// Removes the last element, if any.
    pub fn remove_after(&mut self) -> (r: Option<T>)
        ensures
            old(self)@.len() == 0 ==> r.is_none() && final(self)@ == old(self)@,
            old(self)@.len() > 0 ==> r == Some(old(self)@.last()) && final(self)@ == old(self)@.drop_last(),
    {
        pop_back(&mut self.head)
    }

    /// An iterator over the elements, first to last.
    pub fn iter(&self) -> (r: List_Iterator<'_, T>)
        ensures
            r@ == self@,
    {
        List_Iterator { state: &self.head }
    }

    /// An iterator over the elements, first to last, to change them in place.
    /// What the list holds once the iterator and what it handed out are done
    /// with is the last value written through each reference.
    pub fn iter_mut(&mut self) -> (r: List_Mut_Iterator<'_, T>)
        ensures
            r@ == old(self)@,
            r.refs().len() == old(self)@.len(),
            final(self)@.len() == old(self)@.len(),
            forall|i: int| 0 <= i < old(self)@.len() ==> #[trigger] final(self)@[i] == *final(r.refs()[i]),
    {
        let mut out: List<&mut T> = List::new();
        collect_elems(&mut self.head, &mut out);
        proof {
            assert forall|i: int| 0 <= i < out@.len() implies *out@[i] == old(self)@[i] by {
                assert(out@[0 + i] == out@[i]);
            }
        }
        let r = List_Mut_Iterator { refs: out };
        assert(r@ =~= old(self)@);
        r
    }

    /// Takes the first element off, if any.
    pub(crate) fn pop_front(&mut self) -> (r: Option<T>)
        ensures
            old(self)@.len() == 0 ==> r.is_none() && final(self)@ == old(self)@,
            old(self)@.len() > 0 ==> r == Some(old(self)@[0]) && final(self)@ == old(self)@.drop_first(),
    {
        proof {
            lemma_elems_unfold(self.head);
        }
        match self.head.take() {
            None => None,
            Some(b) => {
                self.head = b.next;
                Some(b.data)
            },
        }
    }

    /// An iterator that hands the elements out, first to last.
    pub fn into_iter(self) -> (r: List_Self_Iterator<T>)
        ensures
            r@ == self@,
    {
        List_Self_Iterator { state: self.head }
    }
}

impl<T: IntKey> List<T> {
    /// Whether some element equals `t`.
    pub fn find(&self, t: &T) -> (r: bool)
        ensures
            r == has_elem(self@, t.key_int()),
    {
        contains_elem(&self.head, t)
    }

    /// Removes the first element equal to `t`, if any.
    pub fn remove_current(&mut self, t: &T)
        ensures
            has_elem(old(self)@, t.key_int()) ==> final(self)@ == old(self)@.remove(first_elem(old(self)@, t.key_int())),
            !has_elem(old(self)@, t.key_int()) ==> final(self)@ == old(self)@,
    {
        let _ = remove_first_elem(&mut self.head, t);
    }
}

impl<T> List<T> {
    /// Whether the list holds no element.
    pub(crate) fn is_empty(&self) -> (r: bool)
        ensures
            r == (self@.len() == 0),
    {
        proof {
            lemma_elems_unfold(self.head);
        }
        self.head.is_none()
    }

    /// The number of elements.
    pub(crate) fn size(&self) -> (r: usize)
        requires
            self@.len() <= usize::MAX,
        ensures
            r == self@.len(),
    {
        len_of(&self.head)
    }
}

impl<K: IntKey, V> List<(K, V)> {
    /// The first entry whose key equals `k`, if any.
    pub(crate) fn find_key(&self, k: &K) -> (r: Option<&(K, V)>)
        ensures
            r.is_some() == has_key(self@, k.key_int()),
            r.is_some() ==> *r.unwrap() == self@[first_index(self@, k.key_int())],
    {
        find_entry(&self.head, k)
    }

    /// The first entry whose key equals `k`, if any, to change in place.
    pub(crate) fn find_key_mut(&mut self, k: &K) -> (r: Option<&mut (K, V)>)
        ensures
            r.is_some() == has_key(old(self)@, k.key_int()),
            r.is_some() ==> {
                let s = old(self)@;
                let i = first_index(s, k.key_int());
                &&& *r.unwrap() == s[i]
                &&& final(self)@ == s.update(i, *final(r.unwrap()))
            },
            r.is_none() ==> *final(self) == *old(self),
    {
        find_entry_mut(&mut self.head, k)
    }

    /// Removes the first entry whose key equals `k`, if any.
    pub(crate) fn remove_key(&mut self, k: &K) -> (r: Option<(K, V)>)
        ensures
            has_key(old(self)@, k.key_int()) ==> {
                let s = old(self)@;
                let i = first_index(s, k.key_int());
                &&& r == Some(s[i])
                &&& final(self)@ == s.remove(i)
            },
            !has_key(old(self)@, k.key_int()) ==> r.is_none() && final(self)@ == old(self)@,
    {
        remove_entry(&mut self.head, k)
    }
}

impl<'a, K, V> List<(K, V)> {
    /// Appends to `out`, in order, every entry as its key and its value to
    /// change in place.  What the list holds once those references are done
    /// with is each key with the last value written through its reference.
    pub(crate) fn collect_refs(&'a mut self, out: &mut List<(&'a K, &'a mut V)>)
        ensures
            final(out)@.len() == old(out)@.len() + old(self)@.len(),
            forall|i: int| 0 <= i < old(out)@.len() ==> #[trigger] final(out)@[i] == old(out)@[i],
            forall|i: int|
                0 <= i < old(self)@.len() ==> *(#[trigger] final(out)@[old(out)@.len() + i]).0 == old(self)@[i].0
                    && *final(out)@[old(out)@.len() + i].1 == old(self)@[i].1,
            final(self)@.len() == old(self)@.len(),
            forall|i: int|
                0 <= i < old(self)@.len() ==> #[trigger] final(self)@[i] == (
                    old(self)@[i].0,
                    *final(final(out)@[old(out)@.len() + i].1),
                ),
    {
        collect_link(&mut self.head, out);
    }
}

// ----------------------------------------------------------------------
// Iterators
// ----------------------------------------------------------------------

/// An iterator over the elements of a list.
#[allow(non_camel_case_types)]
pub struct List_Iterator<'a, T> {
    state: &'a Option<Box<Node<T>>>,
}

impl<'a, T> View for List_Iterator<'a, T> {
    type V = Seq<T>;

    /// The elements still to come.
    closed spec fn view(&self) -> Seq<T> {
        elems_of(*self.state)
    }
}

impl<'a, T> List_Iterator<'a, T> {
    /// The next element, if any.
    pub fn next(&mut self) -> (r: Option<&'a T>)
        ensures
            old(self)@.len() == 0 ==> r.is_none() && final(self)@ == old(self)@,
            old(self)@.len() > 0 ==> r == Some(&old(self)@[0]) && final(self)@ == old(self)@.drop_first(),
    {
        proof {
            lemma_elems_unfold(*self.state);
        }
        match self.state {
            None => None,
            Some(b) => {
                self.state = &b.next;
                Some(&b.data)
            },
        }
    }
}

/// An iterator over the elements of a list, to change them in place.
#[allow(non_camel_case_types)]
pub struct List_Mut_Iterator<'a, T> {
    refs: List<&'a mut T>,
}

impl<'a, T> List_Mut_Iterator<'a, T> {
    /// The references still to hand out.
    pub closed spec fn refs(&self) -> Seq<&'a mut T> {
        self.refs@
    }
}

impl<'a, T> View for List_Mut_Iterator<'a, T> {
    type V = Seq<T>;

    /// The elements still to come.
    closed spec fn view(&self) -> Seq<T> {
        Seq::new(self.refs@.len(), |i: int| *self.refs@[i])
    }
}

impl<'a, T> List_Mut_Iterator<'a, T> {
    /// The next element, if any, to change in place: the first of the
    /// references still to hand out.
    pub fn next(&mut self) -> (r: Option<&'a mut T>)
        ensures
            old(self)@.len() == 0 ==> r.is_none() && final(self)@ == old(self)@,
            old(self)@.len() > 0 ==> r.is_some() && *r.unwrap() == old(self)@[0] && final(self)@ == old(self)@.drop_first(),
            old(self).refs().len() > 0 ==> r == Some(old(self).refs()[0]) && final(self).refs() == old(self).refs().drop_first(),
            old(self).refs().len() == old(self)@.len(),
    {
        let r = self.refs.pop_front();
        assert(self@ =~= old(self)@.drop_first() || old(self)@.len() == 0);
        r
    }
}

/// An iterator that hands the elements of a list out.
#[allow(non_camel_case_types)]
pub struct List_Self_Iterator<T> {
    state: Option<Box<Node<T>>>,
}

impl<T> View for List_Self_Iterator<T> {
    type V = Seq<T>;

    /// The elements still to come.
    closed spec fn view(&self) -> Seq<T> {
        elems_of(self.state)
    }
}

impl<T> List_Self_Iterator<T> {
    /// The next element, if any.
    pub fn next(&mut self) -> (r: Option<T>)
        ensures
            old(self)@.len() == 0 ==> r.is_none() && final(self)@ == old(self)@,
            old(self)@.len() > 0 ==> r == Some(old(self)@[0]) && final(self)@ == old(self)@.drop_first(),
    {
        proof {
            lemma_elems_unfold(self.state);
        }
        match self.state.take() {
            None => None,
            Some(b) => {
                self.state = b.next;
                Some(b.data)
            },
        }
    }
}

// ----------------------------------------------------------------------
// Laws
// ----------------------------------------------------------------------

/// `remove_after` undoes `insert_after`: it gives back the element just put
/// at the end and leaves the list as it was.
pub proof fn lemma_remove_after_undoes_insert_after<T>(before: Seq<T>, t: T, mid: Seq<T>, r: Option<T>, after: Seq<T>)
    requires
        mid == before.push(t),
        mid.len() == 0 ==> r.is_none() && after == mid,
        mid.len() > 0 ==> r == Some(mid.last()) && after == mid.drop_last(),
    ensures
        r == Some(t),
        after == before,
{
    assert(mid.drop_last() =~= before);
}

/// After `insert_before(t)` or `insert_after(t)`, `find(t)` holds.
pub proof fn lemma_find_after_insert<T: IntKey>(before: Seq<T>, t: T)
    ensures
        has_elem(seq![t] + before, t.key_int()),
        has_elem(before.push(t), t.key_int()),
{
    assert((seq![t] + before)[0] == t);
    assert(before.push(t)[before.len() as int] == t);
}

} // verus!
