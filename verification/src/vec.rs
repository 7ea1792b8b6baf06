use vstd::prelude::*;
use rand::seq::SliceRandom;

verus! {

/// A growable array with an explicit, doubling capacity.
///
/// The elements are `self@`; `capacity_of()` is the capacity that the vector
/// has grown to, which is never below the length.
pub struct ManVec<T> {
    data: Vec<T>,
    cap: usize,
}

impl<T> View for ManVec<T> {
    type V = Seq<T>;

    closed spec fn view(&self) -> Seq<T> {
        self.data@
    }
}

/// The capacity after pushing onto a vector of length `len` and capacity `cap`:
/// a full vector doubles (an empty one of capacity 0 first counts as 1).
pub open spec fn cap_after_push(len: nat, cap: nat) -> nat {
    if len + 1 > cap {
        if cap == 0 { 2 } else { 2 * cap }
    } else {
        cap
    }
}

/// `<[T]>::swap` of std, through `Vec`'s slice: exchanges the elements at
/// `a` and `b`.  Claimed of it: exactly those two places change, each to the
/// other's old element.
#[verifier::external_body]
fn swap_elements<T>(v: &mut Vec<T>, a: usize, b: usize)
    requires
        a < old(v)@.len(),
        b < old(v)@.len(),
    ensures
        final(v)@ == old(v)@.update(a as int, old(v)@[b as int]).update(b as int, old(v)@[a as int]),
{
    v.swap(a, b);
}

impl<T> ManVec<T> {
    /// The capacity that the vector has grown to.
    pub closed spec fn capacity_of(&self) -> nat {
        self.cap as nat
    }

    /// The length never exceeds the capacity.
    pub closed spec fn wf(&self) -> bool {
        self.data@.len() <= self.cap
    }

    /// Pushing does not overflow the capacity.
    pub open spec fn push_fits(&self) -> bool {
        self@.len() < self.capacity_of() || self.capacity_of() == 0
            || 2 * self.capacity_of() <= usize::MAX
    }

    /// The number of elements.
    pub fn len(&self) -> (r: usize)
        ensures
            r == self@.len(),
    {
        self.data.len()
    }

    /// Whether the vector holds no element.
    pub fn is_null(&self) -> (r: bool)
        ensures
            r == (self@.len() == 0),
    {
        if self.data.len() == 0 {
            true
        } else {
            false
        }
    }

    /// The element at `index`, to change in place; `None` past the end.
    pub fn get_mut(&mut self, index: usize) -> (r: Option<&mut T>)
        ensures
            index < old(self)@.len() ==> r.is_some() && *r.unwrap() == old(self)@[index as int]
                && final(self)@ == old(self)@.update(index as int, *final(r.unwrap())),
            index >= old(self)@.len() ==> r.is_none() && final(self)@ == old(self)@,
            final(self).capacity_of() == old(self).capacity_of(),
            old(self).wf() ==> final(self).wf(),
    {
        if index >= self.data.len() {
            return None;
        }
        Some(&mut self.data[index])
    }

    /// The element at `index`; `None` past the end.
    pub fn get(&self, index: usize) -> (r: Option<&T>)
        ensures
            index < self@.len() ==> r == Some(&self@[index as int]),
            index >= self@.len() ==> r.is_none(),
    {
        if index >= self.data.len() {
            return None;
        }
        Some(&self.data[index])
    }

    /// Exchanges the elements at `one` and `two`.
    pub fn swap(&mut self, one: usize, two: usize)
        requires
            one < old(self)@.len(),
            two < old(self)@.len(),
        ensures
            final(self)@ == old(self)@.update(one as int, old(self)@[two as int]).update(
                two as int,
                old(self)@[one as int],
            ),
            final(self).capacity_of() == old(self).capacity_of(),
            old(self).wf() ==> final(self).wf(),
    {
        if one != two {
            swap_elements(&mut self.data, one, two);
        }
    }

    /// An empty vector whose capacity is `cap`.
    pub fn capacity(cap: usize) -> (r: Self)
        ensures
            r@ == Seq::<T>::empty(),
            r.capacity_of() == cap,
            r.wf(),
    {
        ManVec { data: Vec::with_capacity(cap), cap: cap }
    }

    /// An empty vector of capacity 0.
    pub fn new() -> (r: Self)
        ensures
            r@ == Seq::<T>::empty(),
            r.capacity_of() == 0,
            r.wf(),
    {
        ManVec { data: Vec::new(), cap: 0 }
    }

    /// A vector of capacity `cap` that holds `t` alone.
    pub fn newinit(t: T, cap: usize) -> (r: Self)
        requires
            cap > 0,
        ensures
            r@ == seq![t],
            r.capacity_of() == cap,
            r.wf(),
    {
        let mut data = Vec::with_capacity(cap);
        data.push(t);
        ManVec { data, cap }
    }

    /// Appends `t`; a full vector first doubles its capacity.
    pub fn push(&mut self, t: T)
        requires
            old(self).wf(),
            old(self).push_fits(),
        ensures
            final(self).wf(),
            final(self)@ == old(self)@.push(t),
            final(self).capacity_of() == cap_after_push(old(self)@.len(), old(self).capacity_of()),
    {
        if self.data.len() + 1 > self.cap {
            if self.cap == 0 {
                self.cap = 1;
            }
            self.growth();
        }
        self.data.push(t);
    }

    /// Doubles the capacity.
    fn growth(&mut self)
        requires
            old(self).wf(),
            2 * old(self).cap <= usize::MAX,
        ensures
            final(self).wf(),
            final(self).cap == 2 * old(self).cap,
            final(self)@ == old(self)@,
    {
        self.cap = 2 * self.cap;
        let extra = self.cap - self.data.len();
        self.data.reserve(extra);
    }

    /// Removes and returns the last element, if any.
    pub fn pop(&mut self) -> (r: Option<T>)
        ensures
            old(self)@.len() == 0 ==> r.is_none() && final(self)@ == old(self)@,
            old(self)@.len() > 0 ==> r == Some(old(self)@.last()) && final(self)@ == old(
                self,
            )@.drop_last(),
            final(self).capacity_of() == old(self).capacity_of(),
            old(self).wf() ==> final(self).wf(),
    {
        self.data.pop()
    }

    /// Inserts `elem` at `index`, shifting the later elements right; a full
    /// vector first doubles its capacity, as `push` does (inserting at the end
    /// is a push).
    pub fn insert(&mut self, index: usize, elem: T)
        requires
            old(self).wf(),
            old(self).push_fits(),
            index <= old(self)@.len(),
        ensures
            final(self).wf(),
            final(self)@ == old(self)@.insert(index as int, elem),
            final(self).capacity_of() == cap_after_push(old(self)@.len(), old(self).capacity_of()),
    {
        if self.data.len() + 1 > self.cap {
            if self.cap == 0 {
                self.cap = 1;
            }
            self.growth();
        }
        self.data.insert(index, elem);
    }

    /// Removes and returns the element at `index`, shifting the later elements left.
    pub fn remove(&mut self, index: usize) -> (r: T)
        requires
            index < old(self)@.len(),
        ensures
            r == old(self)@[index as int],
            final(self)@ == old(self)@.remove(index as int),
            final(self).capacity_of() == old(self).capacity_of(),
            old(self).wf() ==> final(self).wf(),
    {
        self.data.remove(index)
    }

    /// The elements as a slice, to change in place.
    pub(crate) fn as_mut_slice(&mut self) -> (r: &mut [T])
        ensures
            r@ == old(self)@,
            final(self)@ == final(r)@,
            final(self).capacity_of() == old(self).capacity_of(),
            old(self).wf() && final(r)@.len() == r@.len() ==> final(self).wf(),
    {
        self.data.as_mut_slice()
    }

    /// The elements as a slice.
    pub fn as_slice(&self) -> (r: &[T])
        ensures
            r@ == self@,
    {
        self.data.as_slice()
    }

    /// Puts the elements in a random order drawn from `rng` (`rand`'s
    /// `SliceRandom::shuffle`).  Claimed of that call: the elements afterwards
    /// are a permutation of those before.  Which permutation comes out is left
    /// open.
    #[verifier::external_body]
    pub(crate) fn shuffle_in_place(&mut self, rng: &mut rand::rngs::ThreadRng)
        ensures
            final(self)@.to_multiset() == old(self)@.to_multiset(),
            final(self)@.len() == old(self)@.len(),
            final(self).capacity_of() == old(self).capacity_of(),
            old(self).wf() ==> final(self).wf(),
    {
        self.data.as_mut_slice().shuffle(rng);
    }
}

// ----------------------------------------------------------------------
// Laws
// ----------------------------------------------------------------------

/// `pop` undoes `push`: it gives back the element just pushed and leaves the
/// elements as they were.
pub proof fn lemma_pop_undoes_push<T>(before: Seq<T>, t: T, mid: Seq<T>, r: Option<T>, after: Seq<T>)
    requires
        mid == before.push(t),
        mid.len() == 0 ==> r.is_none() && after == mid,
        mid.len() > 0 ==> r == Some(mid.last()) && after == mid.drop_last(),
    ensures
        r == Some(t),
        after == before,
{
    assert(mid.drop_last() =~= before);
}

/// A vector never holds more elements than its capacity, and pushing onto a
/// full one doubles the capacity.
pub proof fn lemma_capacity_covers_length<T>(v: ManVec<T>)
    requires
        v.wf(),
    ensures
        v@.len() <= v.capacity_of(),
        v@.len() + 1 <= cap_after_push(v@.len(), v.capacity_of()),
{
}

} // verus!
