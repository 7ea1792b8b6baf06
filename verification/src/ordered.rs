use vstd::prelude::*;
use crate::key::IntKey;

verus! {

// Sequences of key-value entries ordered by key, the model of the ordered
// containers of this crate.

/// The keys of `s` never decrease.
#[verifier::opaque]
pub open spec fn keys_sorted<K: IntKey, V>(s: Seq<(K, V)>) -> bool {
    forall|i: int, j: int| 0 <= i < j < s.len() ==> s[i].0.key_int() <= s[j].0.key_int()
}

/// Some entry of `s` has a key standing for `k`.
pub open spec fn has_key<K: IntKey, V>(s: Seq<(K, V)>, k: int) -> bool {
    exists|i: int| 0 <= i < s.len() && s[i].0.key_int() == k
}

/// `i` is the index of the first entry of `s` whose key stands for `k`.
pub open spec fn is_first_match<K: IntKey, V>(s: Seq<(K, V)>, k: int, i: int) -> bool {
    &&& 0 <= i < s.len()
    &&& s[i].0.key_int() == k
    &&& forall|j: int| 0 <= j < i ==> s[j].0.key_int() != k
}

/// The index of the first entry of `s` whose key stands for `k`.
pub open spec fn first_index<K: IntKey, V>(s: Seq<(K, V)>, k: int) -> int {
    choose|i: int| is_first_match(s, k, i)
}

/// `p` is where an entry with key `k` goes in `s`: after every entry with a key
/// up to `k` and before every entry with a greater key.
pub open spec fn is_insert_spot<K: IntKey, V>(s: Seq<(K, V)>, k: int, p: int) -> bool {
    &&& 0 <= p <= s.len()
    &&& forall|i: int| 0 <= i < p ==> s[i].0.key_int() <= k
    &&& forall|i: int| p <= i < s.len() ==> s[i].0.key_int() > k
}

/// The place where an entry with key `k` goes in `s`.
pub open spec fn insert_spot<K: IntKey, V>(s: Seq<(K, V)>, k: int) -> int {
    choose|p: int| is_insert_spot(s, k, p)
}

/// A first match is the only one.
pub proof fn lemma_first_match_unique<K: IntKey, V>(s: Seq<(K, V)>, k: int, i: int)
    requires
        is_first_match(s, k, i),
    ensures
        first_index(s, k) == i,
        has_key(s, k),
{
    let j = first_index(s, k);
    assert(is_first_match(s, k, j));
    if j < i {
        assert(s[j].0.key_int() != k);
    } else if i < j {
        assert(s[i].0.key_int() != k);
    }
}

/// A key that is present has a first match.
pub proof fn lemma_has_key_first_match<K: IntKey, V>(s: Seq<(K, V)>, k: int)
    requires
        has_key(s, k),
    ensures
        is_first_match(s, k, first_index(s, k)),
    decreases s.len(),
{
    let i = choose|i: int| 0 <= i < s.len() && s[i].0.key_int() == k;
    if exists|j: int| 0 <= j < i && s[j].0.key_int() == k {
        let j = choose|j: int| 0 <= j < i && s[j].0.key_int() == k;
        let t = s.subrange(0, i);
        assert(t[j].0.key_int() == k);
        lemma_has_key_first_match(t, k);
        let f = first_index(t, k);
        assert(is_first_match(s, k, f)) by {
            assert forall|m: int| 0 <= m < f implies s[m].0.key_int() != k by {
                assert(t[m] == s[m]);
            }
        }
    } else {
        assert(is_first_match(s, k, i));
    }
}

/// In a sorted sequence the spot of a key is unique.
pub proof fn lemma_insert_spot_unique<K: IntKey, V>(s: Seq<(K, V)>, k: int, p: int)
    requires
        is_insert_spot(s, k, p),
    ensures
        insert_spot(s, k) == p,
{
    let q = insert_spot(s, k);
    assert(is_insert_spot(s, k, q));
    if q < p {
        assert(s[q].0.key_int() <= k);
    } else if p < q {
        assert(s[p].0.key_int() <= k);
    }
}


// ----------------------------------------------------------------------
// Facts about sorted sequences
// ----------------------------------------------------------------------

/// The parts around an entry of a sorted sequence are sorted and lie on
/// either side of that entry's key.
pub proof fn lemma_sorted_parts<K: IntKey, V>(s: Seq<(K, V)>, a: Seq<(K, V)>, y: (K, V), b: Seq<(K, V)>)
    requires
        keys_sorted(s),
        s == a + seq![y] + b,
    ensures
        keys_sorted(a),
        keys_sorted(b),
        forall|i: int| 0 <= i < a.len() ==> #[trigger] a[i].0.key_int() <= y.0.key_int(),
        forall|j: int| 0 <= j < b.len() ==> #[trigger] b[j].0.key_int() >= y.0.key_int(),
{
    reveal(keys_sorted);
    assert forall|i: int, j: int| 0 <= i < j < a.len() implies a[i].0.key_int() <= a[j].0.key_int() by {
        assert(a[i] == s[i] && a[j] == s[j]);
    }
    assert forall|i: int, j: int| 0 <= i < j < b.len() implies b[i].0.key_int() <= b[j].0.key_int() by {
        assert(b[i] == s[a.len() + 1 + i] && b[j] == s[a.len() + 1 + j]);
    }
    assert forall|i: int| 0 <= i < a.len() implies #[trigger] a[i].0.key_int() <= y.0.key_int() by {
        assert(a[i] == s[i] && y == s[a.len() as int]);
    }
    assert forall|j: int| 0 <= j < b.len() implies #[trigger] b[j].0.key_int() >= y.0.key_int() by {
        assert(b[j] == s[a.len() + 1 + j] && y == s[a.len() as int]);
    }
}

/// The parts around an entry of a sorted sequence are sorted.
pub proof fn lemma_sorted_sub<K: IntKey, V>(s: Seq<(K, V)>, a: Seq<(K, V)>, y: (K, V), b: Seq<(K, V)>)
    requires
        keys_sorted(s),
        s == a + seq![y] + b,
    ensures
        keys_sorted(a),
        keys_sorted(b),
{
    lemma_sorted_parts(s, a, y, b);
}

/// Inserting an entry at its spot keeps a sequence sorted.
pub proof fn lemma_insert_sorted<K: IntKey, V>(s: Seq<(K, V)>, p: int, e: (K, V))
    requires
        keys_sorted(s),
        is_insert_spot(s, e.0.key_int(), p),
    ensures
        keys_sorted(s.insert(p, e)),
{
    reveal(keys_sorted);
    let t = s.insert(p, e);
    assert forall|i: int, j: int| 0 <= i < j < t.len() implies t[i].0.key_int() <= t[j].0.key_int() by {
        if j < p {
            assert(t[i] == s[i] && t[j] == s[j]);
        } else if j == p {
            assert(t[i] == s[i]);
        } else if i < p {
            assert(t[i] == s[i] && t[j] == s[j - 1]);
        } else if i == p {
            assert(t[j] == s[j - 1]);
        } else {
            assert(t[i] == s[i - 1] && t[j] == s[j - 1]);
        }
    }
}

/// Removing an entry keeps a sequence sorted.
pub proof fn lemma_remove_sorted<K: IntKey, V>(s: Seq<(K, V)>, p: int)
    requires
        keys_sorted(s),
        0 <= p < s.len(),
    ensures
        keys_sorted(s.remove(p)),
{
    reveal(keys_sorted);
    let t = s.remove(p);
    assert forall|i: int, j: int| 0 <= i < j < t.len() implies t[i].0.key_int() <= t[j].0.key_int() by {
        if j < p {
            assert(t[i] == s[i] && t[j] == s[j]);
        } else if i < p {
            assert(t[i] == s[i] && t[j] == s[j + 1]);
        } else {
            assert(t[i] == s[i + 1] && t[j] == s[j + 1]);
        }
    }
}

/// In a sorted `a + [y] + b`, a key found in `a` is first found there.
pub proof fn lemma_first_match_left<K: IntKey, V>(s: Seq<(K, V)>, a: Seq<(K, V)>, y: (K, V), b: Seq<(K, V)>, k: int)
    requires
        keys_sorted(s),
        s == a + seq![y] + b,
        has_key(a, k),
    ensures
        has_key(s, k),
        first_index(s, k) == first_index(a, k),
{
    lemma_has_key_first_match(a, k);
    let i = first_index(a, k);
    assert(is_first_match(s, k, i)) by {
        assert(s[i] == a[i]);
        assert forall|j: int| 0 <= j < i implies s[j].0.key_int() != k by {
            assert(s[j] == a[j]);
        }
    }
    lemma_first_match_unique(s, k, i);
}

/// In `a + [y] + b`, a key that `a` lacks and `y` has is first found at `y`.
pub proof fn lemma_first_match_here<K: IntKey, V>(s: Seq<(K, V)>, a: Seq<(K, V)>, y: (K, V), b: Seq<(K, V)>, k: int)
    requires
        s == a + seq![y] + b,
        !has_key(a, k),
        y.0.key_int() == k,
    ensures
        has_key(s, k),
        first_index(s, k) == a.len(),
{
    assert(is_first_match(s, k, a.len() as int)) by {
        assert(s[a.len() as int] == y);
        assert forall|j: int| 0 <= j < a.len() implies s[j].0.key_int() != k by {
            assert(s[j] == a[j]);
        }
    }
    lemma_first_match_unique(s, k, a.len() as int);
}

/// In a sorted `a + [y] + b`, a key above that of `y` is found in `b` alone.
pub proof fn lemma_first_match_right<K: IntKey, V>(s: Seq<(K, V)>, a: Seq<(K, V)>, y: (K, V), b: Seq<(K, V)>, k: int)
    requires
        keys_sorted(s),
        s == a + seq![y] + b,
        y.0.key_int() < k,
    ensures
        has_key(s, k) == has_key(b, k),
        has_key(b, k) ==> first_index(s, k) == a.len() + 1 + first_index(b, k),
{
    lemma_sorted_parts(s, a, y, b);
    if has_key(b, k) {
        lemma_has_key_first_match(b, k);
        let i = first_index(b, k);
        let p = a.len() + 1 + i;
        assert(is_first_match(s, k, p)) by {
            assert(s[p] == b[i]);
            assert forall|j: int| 0 <= j < p implies s[j].0.key_int() != k by {
                if j < a.len() {
                    assert(s[j] == a[j]);
                    assert(a[j].0.key_int() <= y.0.key_int());
                } else if j > a.len() {
                    assert(s[j] == b[j - a.len() - 1]);
                    assert(b[j - a.len() - 1].0.key_int() != k);
                } else {
                    assert(s[j] == y);
                }
            }
        }
        lemma_first_match_unique(s, k, p);
    } else {
        if has_key(s, k) {
            let i = choose|i: int| 0 <= i < s.len() && s[i].0.key_int() == k;
            if i < a.len() {
                assert(s[i] == a[i]);
                assert(a[i].0.key_int() <= y.0.key_int());
            } else if i > a.len() {
                assert(s[i] == b[i - a.len() - 1]);
                assert(has_key(b, k));
            } else {
                assert(s[i] == y);
            }
        }
    }
}

/// In a sorted `a + [y] + b`, a key below that of `y` is found in `a` alone.
pub proof fn lemma_no_key_right<K: IntKey, V>(s: Seq<(K, V)>, a: Seq<(K, V)>, y: (K, V), b: Seq<(K, V)>, k: int)
    requires
        keys_sorted(s),
        s == a + seq![y] + b,
        k < y.0.key_int(),
    ensures
        has_key(s, k) == has_key(a, k),
{
    lemma_sorted_parts(s, a, y, b);
    if has_key(s, k) {
        let i = choose|i: int| 0 <= i < s.len() && s[i].0.key_int() == k;
        if i > a.len() {
            assert(s[i] == b[i - a.len() - 1]);
            assert(b[i - a.len() - 1].0.key_int() >= y.0.key_int());
        } else if i < a.len() {
            assert(s[i] == a[i]);
            assert(has_key(a, k));
        } else {
            assert(s[i] == y);
        }
    }
    if has_key(a, k) {
        let i = choose|i: int| 0 <= i < a.len() && a[i].0.key_int() == k;
        assert(s[i] == a[i]);
        assert(has_key(s, k));
    }
}

/// Replacing the value of one entry keeps a sequence sorted.
pub proof fn lemma_update_value_sorted<K: IntKey, V>(s: Seq<(K, V)>, i: int)
    requires
        keys_sorted(s),
        0 <= i < s.len(),
    ensures
        forall|x: V| #[trigger] keys_sorted(s.update(i, (s[i].0, x))),
{
    assert forall|x: V| #[trigger] keys_sorted(s.update(i, (s[i].0, x))) by {
        reveal(keys_sorted);
        let t = s.update(i, (s[i].0, x));
        assert forall|a: int, b: int| 0 <= a < b < t.len() implies t[a].0.key_int() <= t[b].0.key_int() by {
            assert(t[a].0 == s[a].0 && t[b].0 == s[b].0);
        }
    }
}

/// The empty sequence is sorted.
pub proof fn lemma_empty_sorted<K: IntKey, V>()
    ensures
        keys_sorted(Seq::<(K, V)>::empty()),
{
    reveal(keys_sorted);
}

/// The keys of `s` strictly increase: no key occurs twice.
pub open spec fn keys_strict<K: IntKey, V>(s: Seq<(K, V)>) -> bool {
    forall|i: int, j: int| 0 <= i < j < s.len() ==> s[i].0.key_int() < s[j].0.key_int()
}

/// In a sequence without repeated keys, an entry with key `k` is the first one.
pub proof fn lemma_strict_match<K: IntKey, V>(s: Seq<(K, V)>, k: int, i: int)
    requires
        keys_strict(s),
        0 <= i < s.len(),
        s[i].0.key_int() == k,
    ensures
        has_key(s, k),
        first_index(s, k) == i,
{
    assert(is_first_match(s, k, i));
    lemma_first_match_unique(s, k, i);
}

/// A sequence whose keys strictly increase is sorted.
pub proof fn lemma_strict_sorted<K: IntKey, V>(s: Seq<(K, V)>)
    requires
        keys_strict(s),
    ensures
        keys_sorted(s),
{
    reveal(keys_sorted);
}

/// A sorted sequence has a spot for every key.
pub proof fn lemma_insert_spot_exists<K: IntKey, V>(s: Seq<(K, V)>, k: int)
    requires
        keys_sorted(s),
    ensures
        is_insert_spot(s, k, insert_spot(s, k)),
    decreases s.len(),
{
    if s.len() == 0 {
        assert(is_insert_spot(s, k, 0));
    } else {
        let t = s.drop_last();
        assert(keys_sorted(t)) by {
            reveal(keys_sorted);
            assert forall|i: int, j: int| 0 <= i < j < t.len() implies t[i].0.key_int() <= t[j].0.key_int() by {
                assert(t[i] == s[i] && t[j] == s[j]);
            }
        }
        if s.last().0.key_int() <= k {
            assert(is_insert_spot(s, k, s.len() as int)) by {
                reveal(keys_sorted);
                assert forall|i: int| 0 <= i < s.len() implies s[i].0.key_int() <= k by {
                    if i < s.len() - 1 {
                        assert(s[i].0.key_int() <= s[s.len() - 1].0.key_int());
                    }
                }
            }
        } else {
            lemma_insert_spot_exists(t, k);
            let p = insert_spot(t, k);
            assert(is_insert_spot(s, k, p)) by {
                assert forall|i: int| 0 <= i < p implies s[i].0.key_int() <= k by {
                    assert(s[i] == t[i]);
                }
                assert forall|i: int| p <= i < s.len() implies s[i].0.key_int() > k by {
                    if i < s.len() - 1 {
                        assert(s[i] == t[i]);
                    }
                }
            }
        }
    }
}

} // verus!
