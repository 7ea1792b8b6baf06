use vstd::prelude::*;
use crate::key::IntKey;
use crate::rng::thread_rng_handle;
use crate::vec::ManVec;

verus! {

broadcast use vstd::seq_lib::to_multiset_update, vstd::multiset::group_multiset_axioms;

/// The keys of `s` never decrease.
pub open spec fn sorted<T: IntKey>(s: Seq<T>) -> bool {
    forall|i: int, j: int| 0 <= i <= j < s.len() ==> s[i].key_int() <= s[j].key_int()
}

/// The keys of `s` never decrease from index `lo` to index `hi`.
pub open spec fn sorted_between<T: IntKey>(s: Seq<T>, lo: int, hi: int) -> bool {
    forall|i: int, j: int| lo <= i <= j <= hi ==> s[i].key_int() <= s[j].key_int()
}

/// Some element of `s` equals `key`.
pub open spec fn holds_key<T: IntKey>(s: Seq<T>, key: int) -> bool {
    exists|i: int| 0 <= i < s.len() && s[i].key_int() == key
}

/// Looks for `key` in the sorted slice `m`: an index where it is, or `None`.
/// The key must lie between the first and the last element.
pub fn binary_search<T: IntKey>(key: &T, m: &[T]) -> (r: Option<usize>)
    requires
        m@.len() > 0,
        sorted(m@),
        m@[0].key_int() <= key.key_int() <= m@[m@.len() - 1].key_int(),
    ensures
        r.is_some() == holds_key(m@, key.key_int()),
        r.is_some() ==> r.unwrap() < m@.len() && m@[r.unwrap() as int].key_int() == key.key_int(),
{
    let mut low: usize = 0;
    let mut hi: usize = m.len() - 0;
    while low <= hi
        invariant
            m@.len() > 0,
            sorted(m@),
            m@[0].key_int() <= key.key_int() <= m@[m@.len() - 1].key_int(),
            low < m@.len(),
            hi <= m@.len(),
            forall|i: int| 0 <= i < low ==> #[trigger] m@[i].key_int() < key.key_int(),
            forall|i: int| hi < i < m@.len() ==> #[trigger] m@[i].key_int() > key.key_int(),
        decreases hi + 1 - low,
    {
        let mid = low + (hi - low) / 2;
        let mid_value = &m[mid];
        if key.key_lt(mid_value) {
            // The first element is at most the key, so it is not the middle one.
            assert(mid > 0);
            hi = mid - 1;
        } else if mid_value.key_lt(key) {
            // The last element is at least the key, so the middle one is not last.
            assert(mid + 1 < m@.len()) by {
                if mid + 1 >= m@.len() {
                    assert(m@[m@.len() - 1].key_int() <= m@[mid as int].key_int());
                }
            }
            low = mid + 1;
        } else {
            return Some(mid);
        }
    }
    proof {
        assert forall|i: int| 0 <= i < m@.len() implies #[trigger] m@[i].key_int() != key.key_int() by {
            if i >= low {
                assert(i > hi);
            }
        }
    }
    None
}

/// Exchanging two places keeps the multiset of elements.
proof fn lemma_swap_multiset<T>(s: Seq<T>, i: int, j: int)
    requires
        0 <= i < s.len(),
        0 <= j < s.len(),
    ensures
        s.update(i, s[j]).update(j, s[i]).to_multiset() == s.to_multiset(),
{
    let s1 = s.update(i, s[j]);
    let s2 = s1.update(j, s[i]);
    if i == j {
        assert(s2 =~= s);
    } else {
        vstd::seq_lib::to_multiset_contains(s, s[i]);
        vstd::seq_lib::to_multiset_contains(s1, s1[j]);
        assert(s.contains(s[i]));
        assert(s1.contains(s1[j]));
        assert(s1[j] == s[j]);
        assert forall|x: T| s2.to_multiset().count(x) == s.to_multiset().count(x) by {
        }
        assert(s2.to_multiset() =~= s.to_multiset());
    }
}

/// Exchanging two places within `[lo, hi]` keeps the multiset of that range
/// and everything outside it.
proof fn lemma_swap_range<T>(s: Seq<T>, i: int, j: int, lo: int, hi: int)
    requires
        0 <= lo <= i <= hi < s.len(),
        lo <= j <= hi,
    ensures
        ({
            let t = s.update(i, s[j]).update(j, s[i]);
            &&& t.subrange(lo, hi + 1).to_multiset() == s.subrange(lo, hi + 1).to_multiset()
            &&& t.to_multiset() == s.to_multiset()
        }),
{
    let t = s.update(i, s[j]).update(j, s[i]);
    let a = s.subrange(lo, hi + 1);
    lemma_swap_multiset(a, i - lo, j - lo);
    assert(t.subrange(lo, hi + 1) =~= a.update(i - lo, a[j - lo]).update(j - lo, a[i - lo]));
    lemma_swap_multiset(s, i, j);
}

/// An element of a range whose multiset is that of another range occurs in
/// the other range.
proof fn lemma_range_member<T>(s: Seq<T>, t: Seq<T>, lo: int, hi: int, k: int)
    requires
        0 <= lo <= k <= hi,
        hi < s.len(),
        hi < t.len(),
        t.subrange(lo, hi + 1).to_multiset() == s.subrange(lo, hi + 1).to_multiset(),
    ensures
        exists|m: int| lo <= m <= hi && s[m] == t[k],
{
    let ts = t.subrange(lo, hi + 1);
    let ss = s.subrange(lo, hi + 1);
    assert(ts[k - lo] == t[k]);
    assert(ts.contains(t[k]));
    vstd::seq_lib::to_multiset_contains(ts, t[k]);
    vstd::seq_lib::to_multiset_contains(ss, t[k]);
    let m = choose|m: int| 0 <= m < ss.len() && ss[m] == t[k];
    assert(s[m + lo] == t[k]);
}

/// Sorts `a[lo..=hi]` by key; nothing happens when `hi <= lo`.
pub fn quick_sort<T: IntKey>(a: &mut ManVec<T>, lo: isize, hi: isize)
    requires
        lo < hi ==> 0 <= lo && hi < old(a)@.len(),
        old(a)@.len() <= isize::MAX,
    ensures
        final(a)@.len() == old(a)@.len(),
        final(a)@.to_multiset() == old(a)@.to_multiset(),
        old(a).wf() ==> final(a).wf(),
        lo < hi ==> final(a)@.subrange(lo as int, hi + 1).to_multiset() == old(a)@.subrange(lo as int, hi + 1).to_multiset(),
        forall|i: int| 0 <= i < old(a)@.len() && !(lo <= i <= hi) ==> final(a)@[i] == old(a)@[i],
        hi <= lo ==> final(a)@ == old(a)@,
        sorted_between(final(a)@, lo as int, hi as int),
    decreases hi + 1 - lo,
{
    if hi <= lo {
        return;
    }
    let ghost a0 = a@;
    let lt = partition(a, lo, hi);
    let ghost a1 = a@;
    quick_sort(a, lo, lt - 1 as isize);
    let ghost a2 = a@;
    quick_sort(a, lt + 1, hi);
    let ghost a3 = a@;
    proof {
        let l = lo as int;
        let h = hi as int;
        let p = lt as int;
        // The pivot stays put, and each side keeps its elements.
        assert forall|i: int| l <= i < p implies #[trigger] a2[i].key_int() <= a1[p].key_int() by {
            if l < p - 1 {
                lemma_range_member(a1, a2, l, p - 1, i);
                let m = choose|m: int| l <= m <= p - 1 && a1[m] == a2[i];
                assert(a1[m].key_int() <= a1[p].key_int());
            } else {
                assert(a2[i] == a1[i]);
            }
        }
        assert forall|i: int| p < i <= h implies #[trigger] a3[i].key_int() >= a1[p].key_int() by {
            if p + 1 < h {
                lemma_range_member(a2, a3, p + 1, h, i);
                let m = choose|m: int| p + 1 <= m <= h && a2[m] == a3[i];
                assert(a2[m] == a1[m]);
            } else {
                assert(a3[i] == a2[i]);
                assert(a2[i] == a1[i]);
            }
        }
        assert(a3[p] == a1[p]);
        assert forall|i: int| l <= i < p implies #[trigger] a3[i] == a2[i] by {
        }
        assert(sorted_between(a3, l, h)) by {
            assert forall|i: int, j: int| l <= i <= j <= h implies a3[i].key_int() <= a3[j].key_int() by {
                if i < p && p <= j {
                    assert(a3[i] == a2[i]);
                    assert(a2[i].key_int() <= a1[p].key_int());
                }
            }
        }
        // The multiset of the whole range is kept.
        assert(a3.subrange(l, h + 1).to_multiset() == a0.subrange(l, h + 1).to_multiset()) by {
            let left2 = a2.subrange(l, p);
            let left1 = a1.subrange(l, p);
            let right3 = a3.subrange(p + 1, h + 1);
            let right2 = a2.subrange(p + 1, h + 1);
            if l < p - 1 {
                assert(left2 =~= a2.subrange(l, p - 1 + 1));
                assert(left1 =~= a1.subrange(l, p - 1 + 1));
            } else {
                assert(left2 =~= left1);
            }
            if p + 1 >= h {
                assert(right3 =~= right2);
            }
            assert(a3.subrange(l, p) =~= left2);
            assert(a2.subrange(p + 1, h + 1) =~= a1.subrange(p + 1, h + 1));
            assert(a3.subrange(l, h + 1) =~= a3.subrange(l, p) + seq![a3[p]] + right3);
            assert(a1.subrange(l, h + 1) =~= left1 + seq![a1[p]] + a1.subrange(p + 1, h + 1));
            vstd::seq_lib::lemma_multiset_commutative(a3.subrange(l, p) + seq![a3[p]], right3);
            vstd::seq_lib::lemma_multiset_commutative(a3.subrange(l, p), seq![a3[p]]);
            vstd::seq_lib::lemma_multiset_commutative(left1 + seq![a1[p]], a1.subrange(p + 1, h + 1));
            vstd::seq_lib::lemma_multiset_commutative(left1, seq![a1[p]]);
        }
    }
}

/// Splits `a[lo..=hi]` around its first element: hands back the index `j`
/// where that element ends up, with every element before it at most it and
/// every element after it at least it.
fn partition<T: IntKey>(a: &mut ManVec<T>, lo: isize, hi: isize) -> (r: isize)
    requires
        0 <= lo <= hi,
        hi < old(a)@.len(),
        old(a)@.len() <= isize::MAX,
    ensures
        lo <= r <= hi,
        final(a)@[r as int] == old(a)@[lo as int],
        final(a)@.len() == old(a)@.len(),
        final(a)@.to_multiset() == old(a)@.to_multiset(),
        old(a).wf() ==> final(a).wf(),
        final(a)@.subrange(lo as int, hi + 1).to_multiset() == old(a)@.subrange(lo as int, hi + 1).to_multiset(),
        forall|i: int| 0 <= i < old(a)@.len() && !(lo <= i <= hi) ==> final(a)@[i] == old(a)@[i],
        forall|i: int| lo <= i < r ==> #[trigger] final(a)@[i].key_int() <= final(a)@[r as int].key_int(),
        forall|i: int| r < i <= hi ==> #[trigger] final(a)@[i].key_int() >= final(a)@[r as int].key_int(),
{
    let ghost a0 = a@;
    let ghost pv = a0[lo as int].key_int();
    let mut i = lo;
    let mut j = hi;
    let mut crossed = false;
    while !crossed
        invariant
            0 <= lo <= hi,
            hi < a0.len(),
            a@.len() == a0.len(),
            a0.len() <= isize::MAX,
            old(a).wf() ==> a.wf(),
            a@.to_multiset() == a0.to_multiset(),
            a@.subrange(lo as int, hi + 1).to_multiset() == a0.subrange(lo as int, hi + 1).to_multiset(),
            forall|k: int| 0 <= k < a0.len() && !(lo <= k <= hi) ==> a@[k] == a0[k],
            a@[lo as int].key_int() == pv,
            a@[lo as int] == a0[lo as int],
            lo <= i <= hi + 1,
            lo <= j <= hi,
            !crossed ==> i <= hi && a@[i as int].key_int() <= pv && i <= j,
            crossed ==> j < i,
            forall|k: int| lo < k < i ==> #[trigger] a@[k].key_int() <= pv,
            forall|k: int| j < k <= hi ==> #[trigger] a@[k].key_int() >= pv,
        decreases hi + 1 - i, (if crossed { 0int } else { 1int }),
    {
        loop
            invariant
                0 <= lo <= hi,
                hi < a@.len(),
                a@.len() <= isize::MAX,
                a@[lo as int].key_int() == pv,
                a@[lo as int] == a0[lo as int],
                lo <= i <= hi + 1,
                forall|k: int| lo < k < i ==> #[trigger] a@[k].key_int() <= pv,
            ensures
                lo < i <= hi + 1,
                i <= hi ==> a@[i as int].key_int() > pv,
            decreases hi + 1 - i,
        {
            if i > hi {
                break;
            }
            let x = a.get(i as usize).unwrap();
            let p = a.get(lo as usize).unwrap();
            if !x.key_le(p) {
                break;
            }
            i = i + 1;
        }
        loop
            invariant
                0 <= lo <= hi,
                hi < a@.len(),
                a@[lo as int].key_int() == pv,
                a@[lo as int] == a0[lo as int],
                lo <= j <= hi,
                forall|k: int| j < k <= hi ==> #[trigger] a@[k].key_int() >= pv,
            ensures
                lo <= j <= hi,
                j > lo ==> a@[j as int].key_int() < pv,
            decreases j - lo,
        {
            if j <= lo {
                break;
            }
            let y = a.get(j as usize).unwrap();
            let p = a.get(lo as usize).unwrap();
            if !p.key_le(y) {
                break;
            }
            j = j - 1;
        }
        if i < j {
            let ghost b = a@;
            a.swap(i as usize, j as usize);
            proof {
                lemma_swap_range(b, i as int, j as int, lo as int, hi as int);
            }
        }
        if i >= j {
            crossed = true;
        }
    }
    let ghost b = a@;
    a.swap(lo as usize, j as usize);
    proof {
        lemma_swap_range(b, lo as int, j as int, lo as int, hi as int);
    }
    return j;
}

/// Puts the elements of `a` in a random order.
pub fn shuffle<T>(a: &mut ManVec<T>)
    ensures
        final(a)@.to_multiset() == old(a)@.to_multiset(),
        final(a)@.len() == old(a)@.len(),
        old(a).wf() ==> final(a).wf(),
{
    let mut rng = thread_rng_handle();
    a.shuffle_in_place(&mut rng);
}

// ----------------------------------------------------------------------
// Laws
// ----------------------------------------------------------------------

/// After `quick_sort` of the whole vector, every element that was in it
/// lies between the first and the last, so `binary_search` may look for it,
/// and it is found.
pub proof fn lemma_search_after_sort<T: IntKey>(before: Seq<T>, after: Seq<T>, i: int)
    requires
        after.to_multiset() == before.to_multiset(),
        sorted_between(after, 0, after.len() - 1),
        0 <= i < before.len(),
    ensures
        after.len() > 0,
        sorted(after),
        after[0].key_int() <= before[i].key_int() <= after[after.len() - 1].key_int(),
        holds_key(after, before[i].key_int()),
{
    vstd::seq_lib::to_multiset_contains(before, before[i]);
    vstd::seq_lib::to_multiset_contains(after, before[i]);
    assert(before.contains(before[i]));
    let j = choose|j: int| 0 <= j < after.len() && after[j] == before[i];
    assert(after.len() > 0);
}

} // verus!
