use vstd::prelude::*;
use crate::key::IntKey;
use crate::list::{List, List_Self_Iterator};
use crate::ordered::{has_key, first_index, is_first_match, lemma_first_match_unique, lemma_has_key_first_match};
use crate::vec::ManVec;
use std::collections::hash_map::DefaultHasher;
use std::hash::Hasher;
use vstd::bytes::{spec_u64_to_le_bytes, u64_to_le_bytes};
use vstd::std_specs::hash::DefaultHasherAdditionalSpecFns;

verus! {

// ----------------------------------------------------------------------
// Hashing
// ----------------------------------------------------------------------

/// The keyed hash of `x` under the keys `k0` and `k1`: what std's
/// `DefaultHasher`, made by `new`, finishes to after it is written the eight
/// little-endian bytes of `k0`, then those of `k1`, then those of `x`.
pub open spec fn keyed_hash(k0: u64, k1: u64, x: u64) -> u64 {
    DefaultHasher::spec_finish(
        seq![spec_u64_to_le_bytes(k0), spec_u64_to_le_bytes(k1), spec_u64_to_le_bytes(x)],
    )
}

/// Computes `keyed_hash(k0, k1, x)`.
pub fn hash_key(k0: u64, k1: u64, x: u64) -> (r: u64)
    ensures
        r == keyed_hash(k0, k1, x),
{
    let mut h = DefaultHasher::new();
    let b0 = u64_to_le_bytes(k0);
    h.write(b0.as_slice());
    let b1 = u64_to_le_bytes(k1);
    h.write(b1.as_slice());
    let bx = u64_to_le_bytes(x);
    h.write(bx.as_slice());
    let r = h.finish();
    assert(h@ =~= seq![spec_u64_to_le_bytes(k0), spec_u64_to_le_bytes(k1), spec_u64_to_le_bytes(x)]);
    r
}

/// `rand::random::<u64>()`: a number from the thread's generator.  Nothing
/// is claimed of it.
#[verifier::external_body]
fn random_key() -> u64 {
    rand::random::<u64>()
}

/// The bucket, among `buckets` of them, where a key of hash `hash` lives.
pub fn bucket_index(hash: u64, buckets: usize) -> (r: usize)
    requires
        buckets > 0,
    ensures
        r == hash % (buckets as u64),
        r < buckets,
{
    (hash % (buckets as u64)) as usize
}

// ----------------------------------------------------------------------
// The list of one bucket
// ----------------------------------------------------------------------

/// The entries of one bucket, in the order they came.
pub struct HashTableList<K, V> {
    list: List<(K, V)>,
}

impl<K, V> View for HashTableList<K, V> {
    type V = Seq<(K, V)>;

    closed spec fn view(&self) -> Seq<(K, V)> {
        self.list@
    }
}

impl<K: IntKey, V> HashTableList<K, V> {
    /// An empty list.
    pub fn new() -> (r: Self)
        ensures
            r@ == Seq::<(K, V)>::empty(),
    {
        HashTableList { list: List::new() }
    }

    /// A list of the one entry `t`.
    pub fn newinit(t: (K, V)) -> (r: Self)
        ensures
            r@ == seq![t],
    {
        HashTableList { list: List::newinit(t) }
    }

    /// Adds `t` at the end.
    pub fn insert_after(&mut self, t: (K, V))
        ensures
            final(self)@ == old(self)@.push(t),
    {
        self.list.insert_after(t);
    }

    /// Removes the last entry, if any.
    pub fn remove_after(&mut self) -> (r: Option<(K, V)>)
        ensures
            old(self)@.len() == 0 ==> r.is_none() && final(self)@ == old(self)@,
            old(self)@.len() > 0 ==> r == Some(old(self)@.last()) && final(self)@ == old(self)@.drop_last(),
    {
        self.list.remove_after()
    }

    /// The first entry of key `t`, if any.
    pub fn find(&self, t: &K) -> (r: Option<&(K, V)>)
        ensures
            r.is_some() == has_key(self@, t.key_int()),
            r.is_some() ==> *r.unwrap() == self@[first_index(self@, t.key_int())],
    {
        self.list.find_key(t)
    }

    /// The first entry of key `t`, if any, to change in place.
    pub fn find_mut(&mut self, t: &K) -> (r: Option<&mut (K, V)>)
        ensures
            r.is_some() == has_key(old(self)@, t.key_int()),
            r.is_some() ==> {
                let s = old(self)@;
                let i = first_index(s, t.key_int());
                &&& *r.unwrap() == s[i]
                &&& final(self)@ == s.update(i, *final(r.unwrap()))
            },
            r.is_none() ==> *final(self) == *old(self),
    {
        self.list.find_key_mut(t)
    }

    /// Removes the first entry of key `t`, if any, and hands it back.
    pub fn remove_current(&mut self, t: &K) -> (r: Option<(K, V)>)
        ensures
            has_key(old(self)@, t.key_int()) ==> {
                let s = old(self)@;
                let i = first_index(s, t.key_int());
                &&& r == Some(s[i])
                &&& final(self)@ == s.remove(i)
            },
            !has_key(old(self)@, t.key_int()) ==> r.is_none() && final(self)@ == old(self)@,
    {
        self.list.remove_key(t)
    }

    /// Whether the list holds no entry.
    pub(crate) fn is_vacant(&self) -> (r: bool)
        ensures
            r == (self@.len() == 0),
    {
        self.list.is_empty()
    }

    /// Appends to `out`, in order, every entry as its key and its value to
    /// change in place.  What the list holds once those references are done
    /// with is each key with the last value written through its reference.
    pub(crate) fn collect_refs<'a>(&'a mut self, out: &mut List<(&'a K, &'a mut V)>)
        ensures
            final(out)@.len() == old(out)@.len() + old(self)@.len(),
            forall|i: int| 0 <= i < old(out)@.len() ==> #[trigger] final(out)@[i] == old(out)@[i],
            forall|i: int|
                0 <= i < old(self)@.len() ==> *(#[trigger] final(out)@[old(out)@.len() + i]).0 == old(self)@[i].0
                    && *final(out)@[old(out)@.len() + i].1 == old(self)@[i].1,
            final(self)@.len() == old(self)@.len(),
            forall|i: int|
                0 <= i < old(self)@.len() ==> #[trigger] final(self)@[i] == (
                    old(self)@[i].0,
                    *final(final(out)@[old(out)@.len() + i].1),
                ),
    {
        self.list.collect_refs(out);
    }

    /// The number of entries.
    pub fn size(&self) -> (r: usize)
        requires
            self@.len() <= usize::MAX,
        ensures
            r == self@.len(),
    {
        self.list.size()
    }

    /// An iterator over the entries, first to last, that hands out each key
    /// and its value to change in place.  What the bucket holds once the
    /// iterator and what it handed out are done with is each key with the
    /// last value written through its reference.
    pub fn iter_mut(&mut self) -> (r: HashTable_Mut_Iterator<'_, K, V>)
        ensures
            r@ == old(self)@,
            r.refs().len() == old(self)@.len(),
            final(self)@.len() == old(self)@.len(),
            forall|i: int|
                0 <= i < old(self)@.len() ==> #[trigger] final(self)@[i] == (
                    old(self)@[i].0,
                    *final(r.refs()[i].1),
                ),
    {
        let mut out: List<(&K, &mut V)> = List::new();
        self.collect_refs(&mut out);
        proof {
            assert forall|i: int| 0 <= i < out@.len() implies *out@[i].0 == old(self)@[i].0 && *out@[i].1
                == old(self)@[i].1 by {
                assert(out@[0 + i] == out@[i]);
            }
        }
        let r = HashTable_Mut_Iterator { refs: out };
        assert(r@ =~= old(self)@);
        r
    }

    /// An iterator that hands the entries out, first to last.
    pub fn into_iter(self) -> (r: HashTable_Into_Iterator<K, V>)
        ensures
            r@ == self@,
    {
        HashTable_Into_Iterator { inner: self.list.into_iter() }
    }
}

/// An iterator over the entries of a bucket: each key, and its value to
/// change in place.
#[allow(non_camel_case_types)]
pub struct HashTable_Mut_Iterator<'a, K, V> {
    refs: List<(&'a K, &'a mut V)>,
}

impl<'a, K, V> HashTable_Mut_Iterator<'a, K, V> {
    /// The references still to hand out.
    pub closed spec fn refs(&self) -> Seq<(&'a K, &'a mut V)> {
        self.refs@
    }
}

impl<'a, K, V> View for HashTable_Mut_Iterator<'a, K, V> {
    type V = Seq<(K, V)>;

    /// The entries still to come.
    closed spec fn view(&self) -> Seq<(K, V)> {
        Seq::new(self.refs@.len(), |i: int| (*self.refs@[i].0, *self.refs@[i].1))
    }
}

impl<'a, K, V> HashTable_Mut_Iterator<'a, K, V> {
    /// The next entry, if any: the first of the references still to hand out.
    pub fn next(&mut self) -> (r: Option<(&'a K, &'a mut V)>)
        ensures
            old(self)@.len() == 0 ==> r.is_none() && final(self)@ == old(self)@,
            old(self)@.len() > 0 ==> r.is_some() && *r.unwrap().0 == old(self)@[0].0 && *r.unwrap().1
                == old(self)@[0].1 && final(self)@ == old(self)@.drop_first(),
            old(self).refs().len() > 0 ==> r == Some(old(self).refs()[0]) && final(self).refs() == old(self).refs().drop_first(),
            old(self).refs().len() == old(self)@.len(),
    {
        let r = self.refs.pop_front();
        assert(self@ =~= old(self)@.drop_first() || old(self)@.len() == 0);
        r
    }
}

/// An iterator that hands the entries of a bucket out.
#[allow(non_camel_case_types)]
pub struct HashTable_Into_Iterator<K, V> {
    inner: List_Self_Iterator<(K, V)>,
}

impl<K, V> View for HashTable_Into_Iterator<K, V> {
    type V = Seq<(K, V)>;

    /// The entries still to come.
    closed spec fn view(&self) -> Seq<(K, V)> {
        self.inner@
    }
}

impl<K, V> HashTable_Into_Iterator<K, V> {
    /// The next entry, if any.
    pub fn next(&mut self) -> (r: Option<(K, V)>)
        ensures
            old(self)@.len() == 0 ==> r.is_none() && final(self)@ == old(self)@,
            old(self)@.len() > 0 ==> r == Some(old(self)@[0]) && final(self)@ == old(self)@.drop_first(),
    {
        self.inner.next()
    }
}

// ----------------------------------------------------------------------
// Sequences of entries without repeated keys
// ----------------------------------------------------------------------

/// No two entries of `s` have keys that stand for the same integer.
pub open spec fn keys_unique<K: IntKey, V>(s: Seq<(K, V)>) -> bool {
    forall|i: int, j: int| 0 <= i < j < s.len() ==> s[i].0.key_int() != s[j].0.key_int()
}

/// In a sequence without repeated keys, an entry of key `k` is the first one.
proof fn lemma_unique_match<K: IntKey, V>(s: Seq<(K, V)>, k: int, i: int)
    requires
        keys_unique(s),
        0 <= i < s.len(),
        s[i].0.key_int() == k,
    ensures
        has_key(s, k),
        first_index(s, k) == i,
{
    assert(is_first_match(s, k, i));
    lemma_first_match_unique(s, k, i);
}

/// The entry of key `k` that a lookup of `s` finds, if any.
pub open spec fn lookup<K: IntKey, V>(s: Seq<(K, V)>, k: int) -> Option<(K, V)> {
    if has_key(s, k) {
        Some(s[first_index(s, k)])
    } else {
        None
    }
}

/// Removing the entry of key `k` from a sequence without repeated keys leaves
/// the lookups of every other key as they were.
proof fn lemma_unique_remove<K: IntKey, V>(s: Seq<(K, V)>, k: int) -> (t: Seq<(K, V)>)
    requires
        keys_unique(s),
    ensures
        t == (if has_key(s, k) { s.remove(first_index(s, k)) } else { s }),
        keys_unique(t),
        !has_key(t, k),
        forall|x: int| x != k ==> #[trigger] lookup(t, x) == lookup(s, x),
        forall|e: (K, V)| t.contains(e) ==> s.contains(e),
{
    if has_key(s, k) {
        lemma_has_key_first_match(s, k);
        let f = first_index(s, k);
        let t = s.remove(f);
        assert(keys_unique(t)) by {
            assert forall|i: int, j: int| 0 <= i < j < t.len() implies t[i].0.key_int() != t[j].0.key_int() by {
                let mi = if i < f { i } else { i + 1 };
                let mj = if j < f { j } else { j + 1 };
                assert(t[i] == s[mi] && t[j] == s[mj]);
            }
        }
        assert(!has_key(t, k)) by {
            if has_key(t, k) {
                let i = choose|i: int| 0 <= i < t.len() && t[i].0.key_int() == k;
                let mi = if i < f { i } else { i + 1 };
                assert(t[i] == s[mi]);
            }
        }
        assert forall|x: int| x != k implies #[trigger] lookup(t, x) == lookup(s, x) by {
            if has_key(s, x) {
                lemma_has_key_first_match(s, x);
                let g = first_index(s, x);
                let w = if g < f { g } else { g - 1 };
                assert(t[w] == s[g]);
                lemma_unique_match(t, x, w);
            } else if has_key(t, x) {
                let i = choose|i: int| 0 <= i < t.len() && t[i].0.key_int() == x;
                let mi = if i < f { i } else { i + 1 };
                assert(t[i] == s[mi]);
            }
        }
        assert forall|e: (K, V)| t.contains(e) implies s.contains(e) by {
            let i = choose|i: int| 0 <= i < t.len() && t[i] == e;
            let mi = if i < f { i } else { i + 1 };
            assert(t[i] == s[mi]);
        }
        t
    } else {
        s
    }
}

/// Appending an entry whose key is absent keeps the keys unique, makes the
/// lookup of its key find it, and leaves other lookups as they were.
proof fn lemma_unique_push<K: IntKey, V>(s: Seq<(K, V)>, e: (K, V))
    requires
        keys_unique(s),
        !has_key(s, e.0.key_int()),
    ensures
        keys_unique(s.push(e)),
        lookup(s.push(e), e.0.key_int()) == Some(e),
        forall|x: int| x != e.0.key_int() ==> #[trigger] lookup(s.push(e), x) == lookup(s, x),
{
    let t = s.push(e);
    assert(keys_unique(t)) by {
        assert forall|i: int, j: int| 0 <= i < j < t.len() implies t[i].0.key_int() != t[j].0.key_int() by {
            if j == s.len() {
                assert(t[i] == s[i]);
            } else {
                assert(t[i] == s[i] && t[j] == s[j]);
            }
        }
    }
    lemma_unique_match(t, e.0.key_int(), s.len() as int);
    assert forall|x: int| x != e.0.key_int() implies #[trigger] lookup(t, x) == lookup(s, x) by {
        if has_key(s, x) {
            lemma_has_key_first_match(s, x);
            let g = first_index(s, x);
            assert(t[g] == s[g]);
            lemma_unique_match(t, x, g);
        } else if has_key(t, x) {
            let i = choose|i: int| 0 <= i < t.len() && t[i].0.key_int() == x;
            assert(t[i] == s[i]);
        }
    }
}

/// Changing the value of the entry at `i` keeps the keys unique and changes
/// the lookup of its key alone.
proof fn lemma_unique_update<K: IntKey, V>(s: Seq<(K, V)>, i: int, x: V)
    requires
        keys_unique(s),
        0 <= i < s.len(),
    ensures
        keys_unique(s.update(i, (s[i].0, x))),
        lookup(s.update(i, (s[i].0, x)), s[i].0.key_int()) == Some((s[i].0, x)),
        forall|y: int| y != s[i].0.key_int() ==> #[trigger] lookup(s.update(i, (s[i].0, x)), y) == lookup(s, y),
        forall|j: int| 0 <= j < s.len() ==> (#[trigger] s.update(i, (s[i].0, x))[j]).0 == s[j].0,
{
    let t = s.update(i, (s[i].0, x));
    assert(keys_unique(t)) by {
        assert forall|a: int, b: int| 0 <= a < b < t.len() implies t[a].0.key_int() != t[b].0.key_int() by {
            assert(t[a].0 == s[a].0 && t[b].0 == s[b].0);
        }
    }
    lemma_unique_match(t, s[i].0.key_int(), i);
    assert forall|y: int| y != s[i].0.key_int() implies #[trigger] lookup(t, y) == lookup(s, y) by {
        if has_key(s, y) {
            lemma_has_key_first_match(s, y);
            let g = first_index(s, y);
            assert(t[g] == s[g]);
            lemma_unique_match(t, y, g);
        } else if has_key(t, y) {
            let j = choose|j: int| 0 <= j < t.len() && t[j].0.key_int() == y;
            assert(t[j].0 == s[j].0);
        }
    }
}

// ----------------------------------------------------------------------
// The map
// ----------------------------------------------------------------------

/// A map from keys to values, kept in buckets chosen by a keyed hash of the
/// key.  The keys of the hash are drawn at random when the map is made, so
/// that nobody can choose keys that all fall into one bucket.
pub struct HashMap<K, V> {
    vec: ManVec<HashTableList<K, V>>,
    k0: u64,
    k1: u64,
    cap: usize,
}

impl<K: IntKey, V> HashMap<K, V> {
    /// The number of buckets.
    pub closed spec fn buckets(&self) -> nat {
        self.cap as nat
    }

    /// The bucket of key `k`.
    pub closed spec fn home(&self, k: K) -> int {
        (keyed_hash(self.k0, self.k1, k.key_int() as u64) % (self.cap as u64)) as int
    }

    /// The entries of bucket `b`, in the order they came.
    pub closed spec fn bucket(&self, b: int) -> Seq<(K, V)> {
        self.vec@[b]@
    }

    /// The entry of key `k`, if any.
    pub closed spec fn entry_of(&self, k: K) -> Option<(K, V)> {
        if self.cap > 0 {
            lookup(self.bucket(self.home(k)), k.key_int())
        } else {
            None
        }
    }

    /// The number of buckets, among the first `n`, that hold an entry.
    pub closed spec fn occupied_upto(&self, n: int) -> nat
        decreases n,
    {
        if n <= 0 {
            0
        } else {
            self.occupied_upto(n - 1) + if self.bucket(n - 1).len() > 0 {
                1nat
            } else {
                0nat
            }
        }
    }

    /// The number of buckets that hold an entry.
    pub closed spec fn occupied(&self) -> nat {
        self.occupied_upto(self.cap as int)
    }

    /// The buckets in use: the home bucket of each key of the map.
    pub open spec fn used_buckets(&self) -> Set<int> {
        Set::new(|b: int| exists|k: K| #[trigger] self@.dom().contains(k) && self.home(k) == b)
    }

    /// The buckets, among the first `n`, that hold an entry.
    closed spec fn nonempty_upto(&self, n: int) -> Set<int> {
        Set::new(|b: int| 0 <= b < n && self.bucket(b).len() > 0)
    }

    /// The number of entries in the first `n` buckets.
    pub closed spec fn total_upto(&self, n: int) -> nat
        decreases n,
    {
        if n <= 0 {
            0
        } else {
            self.total_upto(n - 1) + self.bucket(n - 1).len()
        }
    }

    /// The keys whose bucket is among the first `n` and holds them.
    pub closed spec fn keys_upto(&self, n: int) -> Set<K> {
        Set::new(|k: K| 0 <= self.home(k) < n && has_key(self.bucket(self.home(k)), k.key_int()))
    }

    /// Every entry, bucket after bucket, each bucket in its own order.
    pub closed spec fn entries(&self) -> Seq<(K, V)> {
        flatten(self.vec@)
    }

    /// Each bucket holds the keys whose home it is, each key once.
    pub closed spec fn wf(&self) -> bool {
        &&& self.vec.wf()
        &&& self.vec@.len() == self.cap
        &&& forall|b: int, i: int|
            0 <= b < self.cap && 0 <= i < self.bucket(b).len() ==> self.home(#[trigger] self.bucket(b)[i].0) == b
        &&& forall|b: int| 0 <= b < self.cap ==> keys_unique(#[trigger] self.bucket(b))
    }
}

impl<K: IntKey, V> View for HashMap<K, V> {
    type V = Map<K, V>;

    closed spec fn view(&self) -> Map<K, V> {
        Map::new(|k: K| self.entry_of(k) is Some, |k: K| self.entry_of(k).unwrap().1)
    }
}


/// Changing one bucket to a sequence of its own keys, each once, keeps a map
/// well formed and changes the entries of that bucket's keys alone.
proof fn lemma_bucket_change<K: IntKey, V>(h1: HashMap<K, V>, h2: HashMap<K, V>, b: int)
    requires
        h1.wf(),
        h2.k0 == h1.k0,
        h2.k1 == h1.k1,
        h2.cap == h1.cap,
        h2.vec.wf(),
        h2.vec@.len() == h1.cap,
        0 <= b < h1.cap,
        forall|c: int| 0 <= c < h1.cap && c != b ==> #[trigger] h2.bucket(c) == h1.bucket(c),
        keys_unique(h2.bucket(b)),
        forall|i: int| 0 <= i < h2.bucket(b).len() ==> h2.home(#[trigger] h2.bucket(b)[i].0) == b,
    ensures
        h2.wf(),
        forall|k: K| h1.home(k) != b ==> #[trigger] h2.entry_of(k) == h1.entry_of(k),
        forall|k: K| h1.home(k) == b ==> #[trigger] h2.entry_of(k) == lookup(h2.bucket(b), k.key_int()),
{
    assert forall|c: int, i: int| 0 <= c < h2.cap && 0 <= i < h2.bucket(c).len() implies h2.home(#[trigger] h2.bucket(c)[i].0) == c by {
        if c != b {
            assert(h2.bucket(c) == h1.bucket(c));
            assert(h1.home(h1.bucket(c)[i].0) == c);
        }
    }
    assert forall|c: int| 0 <= c < h2.cap implies keys_unique(#[trigger] h2.bucket(c)) by {
        if c != b {
            assert(h2.bucket(c) == h1.bucket(c));
        }
    }
    assert forall|k: K| h1.home(k) != b implies #[trigger] h2.entry_of(k) == h1.entry_of(k) by {
        if h1.cap > 0 {
            let c = h1.home(k);
            assert(0 <= c < h1.cap);
            assert(h2.bucket(c) == h1.bucket(c));
        }
    }
}

/// Putting `(k, v)` at the end of its bucket, after taking out the entry of
/// key `k` that was there, maps `k` to `v` and keeps the map well formed.
proof fn lemma_insert_view<K: IntKey, V>(h1: HashMap<K, V>, h2: HashMap<K, V>, k: K, v: V)
    requires
        h1.wf(),
        h1.cap > 0,
        h2.k0 == h1.k0,
        h2.k1 == h1.k1,
        h2.cap == h1.cap,
        h2.vec.wf(),
        h2.vec@.len() == h1.cap,
        forall|c: int| 0 <= c < h1.cap && c != h1.home(k) ==> #[trigger] h2.bucket(c) == h1.bucket(c),
        h2.bucket(h1.home(k)) == ({
            let ob = h1.bucket(h1.home(k));
            if has_key(ob, k.key_int()) {
                ob.remove(first_index(ob, k.key_int()))
            } else {
                ob
            }
        }).push((k, v)),
    ensures
        h2.wf(),
        h2@ == h1@.insert(k, v),
{
    let kk = k.key_int();
    let b = h1.home(k);
    let ob = h1.bucket(b);
    let mid = lemma_unique_remove(ob, kk);
    let e = (k, v);
    assert(0 <= b < h1.cap);
    lemma_unique_push(mid, e);
    assert forall|x: K| #[trigger] h2.home(x) == h1.home(x) by {
    }
    assert forall|i: int| 0 <= i < h2.bucket(b).len() implies h2.home(#[trigger] h2.bucket(b)[i].0) == b by {
        if i < mid.len() {
            assert(h2.bucket(b)[i] == mid[i]);
            assert(mid.contains(mid[i]));
            assert(ob.contains(mid[i]));
            let j = choose|j: int| 0 <= j < ob.len() && ob[j] == mid[i];
            assert(ob[j] == h1.bucket(b)[j]);
            assert(h1.home(h1.bucket(b)[j].0) == b);
            assert(h2.home(h2.bucket(b)[i].0) == h1.home(h2.bucket(b)[i].0));
        } else {
            assert(h2.bucket(b)[i] == e);
        }
    }
    lemma_bucket_change(h1, h2, b);
    assert forall|k2: K| #[trigger] h2@.dom().contains(k2) == h1@.insert(k, v).dom().contains(k2)
        && (h2@.dom().contains(k2) ==> h2@[k2] == h1@.insert(k, v)[k2]) by {
        if k2.key_int() == kk {
            K::lemma_key_injective(k2, k);
        } else {
            if h1.home(k2) == b {
                assert(lookup(mid, k2.key_int()) == lookup(ob, k2.key_int()));
                assert(lookup(mid.push(e), k2.key_int()) == lookup(mid, k2.key_int()));
            }
        }
    }
    assert(h2@ =~= h1@.insert(k, v));
}

/// Taking the entry of key `k` out of its bucket removes `k` from the map and
/// keeps the map well formed.
proof fn lemma_remove_view<K: IntKey, V>(h1: HashMap<K, V>, h2: HashMap<K, V>, k: K)
    requires
        h1.wf(),
        h1.cap > 0,
        h2.k0 == h1.k0,
        h2.k1 == h1.k1,
        h2.cap == h1.cap,
        h2.vec.wf(),
        h2.vec@.len() == h1.cap,
        forall|c: int| 0 <= c < h1.cap && c != h1.home(k) ==> #[trigger] h2.bucket(c) == h1.bucket(c),
        h2.bucket(h1.home(k)) == ({
            let ob = h1.bucket(h1.home(k));
            if has_key(ob, k.key_int()) {
                ob.remove(first_index(ob, k.key_int()))
            } else {
                ob
            }
        }),
    ensures
        h2.wf(),
        h2@ == h1@.remove(k),
        h1@.dom().contains(k) ==> h1.bucket(h1.home(k))[first_index(h1.bucket(h1.home(k)), k.key_int())] == (k, h1@[k]),
{
    let kk = k.key_int();
    let b = h1.home(k);
    let ob = h1.bucket(b);
    let mid = lemma_unique_remove(ob, kk);
    assert(0 <= b < h1.cap);
    assert forall|x: K| #[trigger] h2.home(x) == h1.home(x) by {
    }
    assert forall|i: int| 0 <= i < h2.bucket(b).len() implies h2.home(#[trigger] h2.bucket(b)[i].0) == b by {
        assert(h2.bucket(b)[i] == mid[i]);
        assert(mid.contains(mid[i]));
        assert(ob.contains(mid[i]));
        let j = choose|j: int| 0 <= j < ob.len() && ob[j] == mid[i];
        assert(ob[j] == h1.bucket(b)[j]);
        assert(h1.home(h1.bucket(b)[j].0) == b);
        assert(h2.home(h2.bucket(b)[i].0) == h1.home(h2.bucket(b)[i].0));
    }
    lemma_bucket_change(h1, h2, b);
    assert forall|k2: K| #[trigger] h2@.dom().contains(k2) == h1@.remove(k).dom().contains(k2)
        && (h2@.dom().contains(k2) ==> h2@[k2] == h1@.remove(k)[k2]) by {
        if k2.key_int() == kk {
            K::lemma_key_injective(k2, k);
        } else {
            if h1.home(k2) == b {
                assert(lookup(mid, k2.key_int()) == lookup(ob, k2.key_int()));
            }
        }
    }
    assert(h2@ =~= h1@.remove(k));
    if h1@.dom().contains(k) {
        lemma_has_key_first_match(ob, kk);
        K::lemma_key_injective(ob[first_index(ob, kk)].0, k);
    }
}

/// Any map that differs from `h1` only by the value of the entry of key `k`
/// is well formed, and maps `k` to that value.
proof fn lemma_value_change<K: IntKey, V>(h1: HashMap<K, V>, k: K)
    requires
        h1.wf(),
        h1.cap > 0,
        h1@.dom().contains(k),
    ensures
        ({
            let b = h1.home(k);
            let i = first_index(h1.bucket(b), k.key_int());
            &&& 0 <= b < h1.cap
            &&& 0 <= i < h1.bucket(b).len()
            &&& h1.bucket(b)[i] == (k, h1@[k])
            &&& forall|h2: HashMap<K, V>|
                #![trigger h2.wf()]
                #![trigger h2.view()]
                h2.k0 == h1.k0 && h2.k1 == h1.k1 && h2.cap == h1.cap && h2.vec.wf() && h2.vec@ == h1.vec@.update(
                    b,
                    h2.vec@[b],
                ) && h2.bucket(b) == h1.bucket(b).update(i, (k, h2.bucket(b)[i].1)) ==> h2.wf() && h2@ == h1@.insert(
                    k,
                    h2.bucket(b)[i].1,
                )
        }),
{
    let kk = k.key_int();
    let b = h1.home(k);
    let ob = h1.bucket(b);
    assert(0 <= b < h1.cap);
    lemma_has_key_first_match(ob, kk);
    let i = first_index(ob, kk);
    K::lemma_key_injective(ob[i].0, k);
    assert forall|h2: HashMap<K, V>|
        #![trigger h2.wf()]
        #![trigger h2.view()]
        h2.k0 == h1.k0 && h2.k1 == h1.k1 && h2.cap == h1.cap && h2.vec.wf() && h2.vec@ == h1.vec@.update(b, h2.vec@[b])
            && h2.bucket(b) == h1.bucket(b).update(i, (k, h2.bucket(b)[i].1)) implies h2.wf() && h2@ == h1@.insert(
        k,
        h2.bucket(b)[i].1,
    ) by {
        let x = h2.bucket(b)[i].1;
        lemma_unique_update(ob, i, x);
        assert forall|c: int| 0 <= c < h1.cap && c != b implies #[trigger] h2.bucket(c) == h1.bucket(c) by {
            assert(h2.vec@[c] == h1.vec@[c]);
        }
        assert forall|x2: K| #[trigger] h2.home(x2) == h1.home(x2) by {
        }
        assert forall|j: int| 0 <= j < h2.bucket(b).len() implies h2.home(#[trigger] h2.bucket(b)[j].0) == b by {
            assert(h2.bucket(b)[j].0 == ob[j].0);
            assert(h1.home(h1.bucket(b)[j].0) == b);
        }
        lemma_bucket_change(h1, h2, b);
        assert forall|k2: K| #[trigger] h2@.dom().contains(k2) == h1@.insert(k, x).dom().contains(k2)
            && (h2@.dom().contains(k2) ==> h2@[k2] == h1@.insert(k, x)[k2]) by {
            if k2.key_int() == kk {
                K::lemma_key_injective(k2, k);
            } else {
                if h1.home(k2) == b {
                    assert(lookup(h2.bucket(b), k2.key_int()) == lookup(ob, k2.key_int()));
                }
            }
        }
        assert(h2@ =~= h1@.insert(k, x));
    }
}

/// Any map whose buckets are those of `h1`, with bucket `b` put back as it
/// was, is well formed and has the entries of `h1`.
proof fn lemma_same_buckets<K: IntKey, V>(h1: HashMap<K, V>, b: int)
    requires
        h1.wf(),
        0 <= b < h1.cap,
    ensures
        forall|h2: HashMap<K, V>|
            #![trigger h2.wf()]
            #![trigger h2.view()]
            h2.k0 == h1.k0 && h2.k1 == h1.k1 && h2.cap == h1.cap && h2.vec.wf() && h2.vec@ == h1.vec@.update(
                b,
                h1.vec@[b],
            ) ==> h2.wf() && h2@ == h1@,
{
    assert forall|h2: HashMap<K, V>|
        #![trigger h2.wf()]
        #![trigger h2.view()]
        h2.k0 == h1.k0 && h2.k1 == h1.k1 && h2.cap == h1.cap && h2.vec.wf() && h2.vec@ == h1.vec@.update(b, h1.vec@[b])
            implies h2.wf() && h2@ == h1@ by {
        assert(h2.vec@ =~= h1.vec@);
        assert forall|c: int| #[trigger] h2.bucket(c) == h1.bucket(c) by {
        }
        assert forall|x: K| #[trigger] h2.home(x) == h1.home(x) by {
        }
        assert forall|c: int, i: int| 0 <= c < h2.cap && 0 <= i < h2.bucket(c).len() implies h2.home(#[trigger] h2.bucket(c)[i].0) == c by {
            assert(h1.home(h1.bucket(c)[i].0) == c);
        }
        assert forall|c: int| 0 <= c < h2.cap implies keys_unique(#[trigger] h2.bucket(c)) by {
            assert(keys_unique(h1.bucket(c)));
        }
        assert(h2.wf());
        assert forall|k: K| #[trigger] h2.entry_of(k) == h1.entry_of(k) by {
            assert(h2.bucket(h2.home(k)) == h1.bucket(h1.home(k)));
        }
        assert(h2@ =~= h1@);
    }
}

/// No bucket among the first `n` holds an entry exactly when the count of
/// occupied ones is zero.
proof fn lemma_occupied_zero<K: IntKey, V>(h: HashMap<K, V>, n: int)
    requires
        0 <= n <= h.cap,
    ensures
        (h.occupied_upto(n) == 0) == (forall|b: int| 0 <= b < n ==> #[trigger] h.bucket(b).len() == 0),
    decreases n,
{
    if n > 0 {
        lemma_occupied_zero(h, n - 1);
    }
}

/// A map holds no entry exactly when none of its buckets does.
proof fn lemma_empty_iff<K: IntKey, V>(h: HashMap<K, V>)
    requires
        h.wf(),
    ensures
        (h.occupied() == 0) == (h@ == Map::<K, V>::empty()),
{
    lemma_occupied_zero(h, h.cap as int);
    if h.occupied() == 0 {
        assert forall|k: K| !(#[trigger] h@.dom().contains(k)) by {
            if h.cap > 0 {
                assert(h.bucket(h.home(k)).len() == 0);
            }
        }
        assert(h@ =~= Map::<K, V>::empty());
    } else {
        let b = choose|b: int| 0 <= b < h.cap && #[trigger] h.bucket(b).len() != 0;
        let k = h.bucket(b)[0].0;
        assert(h.home(k) == b);
        assert(has_key(h.bucket(b), k.key_int()));
        assert(h@.dom().contains(k));
    }
}

/// The keys of the first `n` buckets are finitely many: as many as the
/// entries of those buckets.
proof fn lemma_keys_upto<K: IntKey, V>(h: HashMap<K, V>, n: int)
    requires
        h.wf(),
        h.cap > 0,
        0 <= n <= h.cap,
    ensures
        h.keys_upto(n).finite(),
        h.keys_upto(n).len() == h.total_upto(n),
    decreases n,
{
    if n == 0 {
        assert(h.keys_upto(0) =~= Set::<K>::empty());
    } else {
        lemma_keys_upto(h, n - 1);
        let s = h.bucket(n - 1);
        let ks = s.map_values(|e: (K, V)| e.0);
        assert(ks.no_duplicates()) by {
            assert forall|i: int, j: int| 0 <= i < ks.len() && 0 <= j < ks.len() && i != j implies ks[i] != ks[j] by {
                assert(keys_unique(s));
                if i < j {
                    assert(s[i].0.key_int() != s[j].0.key_int());
                } else {
                    assert(s[j].0.key_int() != s[i].0.key_int());
                }
            }
        }
        ks.unique_seq_to_set();
        vstd::seq_lib::seq_to_set_is_finite(ks);
        let a = h.keys_upto(n - 1);
        let bs = ks.to_set();
        assert(a.disjoint(bs)) by {
            assert forall|k: K| a.contains(k) implies !bs.contains(k) by {
                if bs.contains(k) {
                    let i = choose|i: int| 0 <= i < ks.len() && ks[i] == k;
                    assert(h.home(h.bucket(n - 1)[i].0) == n - 1);
                }
            }
        }
        assert(h.keys_upto(n) =~= a + bs) by {
            assert forall|k: K| #[trigger] h.keys_upto(n).contains(k) implies (a + bs).contains(k) by {
                if h.home(k) == n - 1 {
                    let i = choose|i: int| 0 <= i < s.len() && s[i].0.key_int() == k.key_int();
                    K::lemma_key_injective(s[i].0, k);
                    assert(ks[i] == k);
                    assert(ks.contains(k));
                }
            }
            assert forall|k: K| (a + bs).contains(k) implies #[trigger] h.keys_upto(n).contains(k) by {
                if bs.contains(k) {
                    let i = choose|i: int| 0 <= i < ks.len() && ks[i] == k;
                    assert(h.home(h.bucket(n - 1)[i].0) == n - 1);
                    assert(has_key(s, k.key_int()));
                }
            }
        }
        vstd::set_lib::lemma_set_disjoint_lens(a, bs);
    }
}

/// The keys and values behind a sequence of key references and value
/// references.
pub open spec fn pairs<K, V>(s: Seq<(&K, &mut V)>) -> Seq<(K, V)> {
    s.map_values(|e: (&K, &mut V)| (*e.0, *e.1))
}

/// The entries of the buckets `bs`, bucket after bucket, each bucket in its
/// own order.
pub open spec fn flatten<K, V>(bs: Seq<HashTableList<K, V>>) -> Seq<(K, V)>
    decreases bs.len(),
{
    if bs.len() == 0 {
        Seq::empty()
    } else {
        bs[0]@ + flatten(bs.drop_first())
    }
}

/// Pushing a pair of references pushes the pair of values behind them.
proof fn lemma_pairs_push<'a, K, V>(s: Seq<(&'a K, &'a mut V)>)
    ensures
        forall|e: (&'a K, &'a mut V)| #[trigger] pairs(s.push(e)) == pairs(s).push((*e.0, *e.1)),
{
    assert forall|e: (&'a K, &'a mut V)| #[trigger] pairs(s.push(e)) == pairs(s).push((*e.0, *e.1)) by {
        assert(pairs(s.push(e)) =~= pairs(s).push((*e.0, *e.1)));
    }
}

/// The entries of a run of buckets that starts with one bucket are that
/// bucket's entries, then those of the rest.
proof fn lemma_flatten_split<K, V>()
    ensures
        forall|xs: Seq<HashTableList<K, V>>, ys: Seq<HashTableList<K, V>>|
            xs.len() == 1 ==> #[trigger] flatten(xs + ys) == xs[0]@ + flatten(ys),
{
    assert forall|xs: Seq<HashTableList<K, V>>, ys: Seq<HashTableList<K, V>>|
        xs.len() == 1 implies #[trigger] flatten(xs + ys) == xs[0]@ + flatten(ys) by {
        assert((xs + ys).drop_first() =~= ys);
        assert((xs + ys)[0] == xs[0]);
    }
}

/// A map whose buckets keep their keys in their places, whatever values they
/// hold now, is well formed, has the keys it had, and maps each key to the
/// value beside it.
proof fn lemma_keys_kept<K: IntKey, V>(h1: HashMap<K, V>)
    requires
        h1.wf(),
    ensures
        forall|h2: HashMap<K, V>|
            #![trigger h2.wf()]
            #![trigger h2.view()]
            h2.k0 == h1.k0 && h2.k1 == h1.k1 && h2.cap == h1.cap && h2.vec.wf() && h2.vec@.len() == h1.vec@.len()
                && (forall|c: int| 0 <= c < h1.cap ==> (#[trigger] h2.bucket(c)).len() == h1.bucket(c).len())
                && (forall|c: int, j: int|
                0 <= c < h1.cap && 0 <= j < h1.bucket(c).len() ==> (#[trigger] h2.bucket(c)[j]).0 == h1.bucket(c)[j].0)
                ==> h2.wf() && h2@.dom() == h1@.dom() && (forall|i: int|
                0 <= i < h2.entries().len() ==> h2@[(#[trigger] h2.entries()[i]).0] == h2.entries()[i].1),
{
    assert forall|h2: HashMap<K, V>|
        #![trigger h2.wf()]
        #![trigger h2.view()]
        h2.k0 == h1.k0 && h2.k1 == h1.k1 && h2.cap == h1.cap && h2.vec.wf() && h2.vec@.len() == h1.vec@.len()
            && (forall|c: int| 0 <= c < h1.cap ==> (#[trigger] h2.bucket(c)).len() == h1.bucket(c).len())
            && (forall|c: int, j: int|
            0 <= c < h1.cap && 0 <= j < h1.bucket(c).len() ==> (#[trigger] h2.bucket(c)[j]).0 == h1.bucket(c)[j].0)
            implies h2.wf() && h2@.dom() == h1@.dom() && (forall|i: int|
            0 <= i < h2.entries().len() ==> h2@[(#[trigger] h2.entries()[i]).0] == h2.entries()[i].1) by {
        assert forall|x: K| #[trigger] h2.home(x) == h1.home(x) by {
        }
        assert forall|c: int, i: int| 0 <= c < h2.cap && 0 <= i < h2.bucket(c).len() implies h2.home(#[trigger] h2.bucket(c)[i].0) == c by {
            assert(h2.bucket(c)[i].0 == h1.bucket(c)[i].0);
            assert(h1.home(h1.bucket(c)[i].0) == c);
        }
        assert forall|c: int| 0 <= c < h2.cap implies keys_unique(#[trigger] h2.bucket(c)) by {
            assert(keys_unique(h1.bucket(c)));
            assert forall|a: int, b: int| 0 <= a < b < h2.bucket(c).len() implies h2.bucket(c)[a].0.key_int()
                != h2.bucket(c)[b].0.key_int() by {
                assert(h2.bucket(c)[a].0 == h1.bucket(c)[a].0);
                assert(h2.bucket(c)[b].0 == h1.bucket(c)[b].0);
            }
        }
        assert(h2.wf());
        assert forall|k: K| h2@.dom().contains(k) == h1@.dom().contains(k) by {
            if h1.cap > 0 {
                let c = h1.home(k);
                let s1 = h1.bucket(c);
                let s2 = h2.bucket(c);
                if has_key(s1, k.key_int()) {
                    let j = choose|j: int| 0 <= j < s1.len() && s1[j].0.key_int() == k.key_int();
                    assert(s2[j].0 == s1[j].0);
                }
                if has_key(s2, k.key_int()) {
                    let j = choose|j: int| 0 <= j < s2.len() && s2[j].0.key_int() == k.key_int();
                    assert(s2[j].0 == s1[j].0);
                }
            }
        }
        assert(h2@.dom() =~= h1@.dom());
        lemma_entries_are_the_map(h2);
    }
}

/// Appends to `out` every entry of the buckets, bucket after bucket, as its
/// key and its value to change in place.  What the buckets hold once those
/// references are done with is each key, in its place, with the last value
/// written through its reference.
fn collect_entries<'a, K: IntKey, V>(buckets: &'a mut [HashTableList<K, V>], out: &mut List<(&'a K, &'a mut V)>)
    ensures
        final(out)@.len() == old(out)@.len() + flatten(old(buckets)@).len(),
        forall|i: int| 0 <= i < old(out)@.len() ==> #[trigger] final(out)@[i] == old(out)@[i],
        forall|i: int|
            0 <= i < flatten(old(buckets)@).len() ==> *(#[trigger] final(out)@[old(out)@.len() + i]).0 == flatten(
                old(buckets)@,
            )[i].0 && *final(out)@[old(out)@.len() + i].1 == flatten(old(buckets)@)[i].1,
        final(buckets)@.len() == old(buckets)@.len(),
        forall|c: int|
            0 <= c < old(buckets)@.len() ==> (#[trigger] final(buckets)@[c])@.len() == old(buckets)@[c]@.len(),
        forall|c: int, j: int|
            0 <= c < old(buckets)@.len() && 0 <= j < old(buckets)@[c]@.len() ==> (#[trigger] final(buckets)@[c]@[j]).0
                == old(buckets)@[c]@[j].0,
        flatten(final(buckets)@).len() == flatten(old(buckets)@).len(),
        forall|i: int|
            0 <= i < flatten(old(buckets)@).len() ==> #[trigger] flatten(final(buckets)@)[i] == (
                flatten(old(buckets)@)[i].0,
                *final(final(out)@[old(out)@.len() + i].1),
            ),
    decreases old(buckets)@.len(),
{
    let ghost bs = buckets@;
    let ghost o: int = out@.len() as int;
    if buckets.len() == 0 {
        return;
    }
    let (first, rest) = buckets.split_at_mut(1);
    let ghost b0 = bs[0]@;
    let ghost n0: int = b0.len() as int;
    let ghost rs = rest@;
    proof {
        assert(rs =~= bs.drop_first());
    }
    match first.first_mut() {
        Some(b) => {
            b.collect_refs(out);
        },
        None => {},
    }
    let ghost mid = out@;
    collect_entries(rest, out);
    proof {
        lemma_flatten_split::<K, V>();
        let f = flatten(bs);
        assert(f == b0 + flatten(rs));
        let last = out@;
        assert forall|i: int| 0 <= i < f.len() implies *(#[trigger] last[o + i]).0 == f[i].0 && *last[o + i].1 == f[i].1 by {
            if i < n0 {
                assert(last[o + i] == mid[o + i]);
            } else {
                assert(last[(o + n0) + (i - n0)] == last[o + i]);
            }
        }
    }
}

impl<K: IntKey, V> HashMap<K, V> {
    /// The bucket of key `k`.
    fn bucket_of(&self, k: &K) -> (r: usize)
        requires
            self.cap > 0,
        ensures
            r == self.home(*k),
            r < self.cap,
    {
        let h = hash_key(self.k0, self.k1, k.key_bits());
        bucket_index(h, self.cap)
    }

    /// A map of `default_capacity` empty buckets.
    pub fn new_with_capacity(default_capacity: usize) -> (r: Self)
        ensures
            r.wf(),
            r@ == Map::<K, V>::empty(),
            r.buckets() == default_capacity,
    {
        let mut v: ManVec<HashTableList<K, V>> = ManVec::capacity(default_capacity);
        let mut i: usize = 0;
        while i < default_capacity
            invariant
                v.wf(),
                v.capacity_of() == default_capacity,
                v@.len() == i,
                i <= default_capacity,
                forall|j: int| 0 <= j < i ==> (#[trigger] v@[j])@ == Seq::<(K, V)>::empty(),
            decreases default_capacity - i,
        {
            let list = HashTableList::new();
            v.push(list);
            i = i + 1;
        }
        let r = HashMap { vec: v, k0: random_key(), k1: random_key(), cap: default_capacity };
        proof {
            assert forall|b: int| 0 <= b < r.cap implies keys_unique(#[trigger] r.bucket(b)) by {
                assert(r.bucket(b) == Seq::<(K, V)>::empty());
            }
            assert forall|b: int, j: int| 0 <= b < r.cap && 0 <= j < r.bucket(b).len() implies r.home(#[trigger] r.bucket(b)[j].0) == b by {
                assert(r.bucket(b) == Seq::<(K, V)>::empty());
            }
            assert forall|k: K| !(#[trigger] r@.dom().contains(k)) by {
                if r.cap > 0 {
                    assert(0 <= r.home(k) < r.cap);
                    assert(r.bucket(r.home(k)) == Seq::<(K, V)>::empty());
                }
            }
            assert(r@ =~= Map::<K, V>::empty());
        }
        r
    }

    /// A map of sixteen empty buckets.
    pub fn new() -> (r: Self)
        ensures
            r.wf(),
            r@ == Map::<K, V>::empty(),
            r.buckets() == 16,
    {
        Self::new_with_capacity(16)
    }

    /// Maps `k` to `v`.  An entry of key `k` that was there already leaves;
    /// the new entry goes to the end of its bucket.
    pub fn insert(&mut self, k: K, v: V)
        requires
            old(self).wf(),
            old(self).buckets() > 0,
        ensures
            final(self).wf(),
            final(self).buckets() == old(self).buckets(),
            final(self)@ == old(self)@.insert(k, v),
    {
        let ghost h1 = *self;
        let ghost gk = k;
        let ghost gv = v;
        let idx = self.bucket_of(&k);
        match self.vec.get_mut(idx) {
            Some(value_list) => {
                let existed = match value_list.find(&k) {
                    Some(_) => true,
                    None => false,
                };
                if existed {
                    let _ = value_list.remove_current(&k);
                }
                let s = (k, v);
                value_list.insert_after(s);
            },
            None => {},
        }
        proof {
            lemma_insert_view(h1, *self, gk, gv);
        }
    }

    /// Whether some entry has key `k`.
    pub fn contains_key(&self, k: &K) -> (r: bool)
        requires
            self.wf(),
            self.buckets() > 0,
        ensures
            r == self@.dom().contains(*k),
    {
        let idx = self.bucket_of(k);
        if let Some(value_list) = self.vec.get(idx) {
            if let Some(_) = value_list.find(k) {
                return true;
            } else {
                return false;
            }
        } else {
            return false;
        }
    }

    /// The value of key `k`, if any.
    pub fn get(&self, k: &K) -> (r: Option<&V>)
        requires
            self.wf(),
            self.buckets() > 0,
        ensures
            r.is_some() == self@.dom().contains(*k),
            r.is_some() ==> *r.unwrap() == self@[*k],
    {
        let idx = self.bucket_of(k);
        if let Some(value_list) = self.vec.get(idx) {
            if let Some(v) = value_list.find(k) {
                Some(&v.1)
            } else {
                None
            }
        } else {
            None
        }
    }

    /// The value of key `k`, if any, to change in place.
    pub fn get_mut(&mut self, k: &K) -> (r: Option<&mut V>)
        requires
            old(self).wf(),
            old(self).buckets() > 0,
        ensures
            final(self).wf(),
            final(self).buckets() == old(self).buckets(),
            r.is_some() == old(self)@.dom().contains(*k),
            r.is_some() ==> *r.unwrap() == old(self)@[*k] && final(self)@ == old(self)@.insert(*k, *final(r.unwrap())),
            r.is_none() ==> final(self)@ == old(self)@,
    {
        let ghost h1 = *self;
        let idx = self.bucket_of(k);
        proof {
            if h1@.dom().contains(*k) {
                lemma_value_change(h1, *k);
            } else {
                lemma_same_buckets(h1, idx as int);
            }
        }
        if let Some(value_list) = self.vec.get_mut(idx) {
            if let Some(v) = value_list.find_mut(k) {
                Some(&mut v.1)
            } else {
                None
            }
        } else {
            None
        }
    }

    /// Removes the entry of key `k`, if any, and hands it back.
    pub fn remove(&mut self, k: &K) -> (r: Option<(K, V)>)
        requires
            old(self).wf(),
            old(self).buckets() > 0,
        ensures
            final(self).wf(),
            final(self).buckets() == old(self).buckets(),
            final(self)@ == old(self)@.remove(*k),
            r == (if old(self)@.dom().contains(*k) {
                Some((*k, old(self)@[*k]))
            } else {
                None
            }),
    {
        let ghost h1 = *self;
        let idx = self.bucket_of(k);
        let r = if let Some(value_list) = self.vec.get_mut(idx) {
            value_list.remove_current(k)
        } else {
            None
        };
        proof {
            lemma_remove_view(h1, *self, *k);
        }
        r
    }

    /// Every entry, bucket after bucket, as its key and its value to change
    /// in place; `None` when the map holds no entry.
    pub fn iter_mut(&mut self) -> (r: Option<List<(&K, &mut V)>>)
        requires
            old(self).wf(),
        ensures
            r.is_none() == (old(self)@ == Map::<K, V>::empty()),
            r.is_none() ==> *final(self) == *old(self),
            r.is_some() ==> pairs(r.unwrap()@) == old(self).entries(),
            final(self).wf(),
            final(self).buckets() == old(self).buckets(),
            final(self)@.dom() == old(self)@.dom(),
            r.is_some() ==> final(self).entries().len() == r.unwrap()@.len(),
            r.is_some() ==> forall|i: int|
                0 <= i < r.unwrap()@.len() ==> #[trigger] final(self).entries()[i] == (
                    *r.unwrap()@[i].0,
                    *final(r.unwrap()@[i].1),
                ) && final(self)@[*r.unwrap()@[i].0] == *final(r.unwrap()@[i].1),
    {
        proof {
            lemma_empty_iff(*self);
            lemma_keys_kept(*self);
        }
        if self.item_len() == 0 {
            return None;
        }
        let ghost es = self.entries();
        let mut list = List::new();
        collect_entries(self.vec.as_mut_slice(), &mut list);
        assert forall|i: int| 0 <= i < es.len() implies #[trigger] pairs(list@)[i] == es[i] by {
            assert(list@[0 + i] == list@[i]);
        }
        assert(pairs(list@) =~= es);
        Some(list)
    }

    /// The number of buckets that hold at least one entry.
    pub fn item_len(&self) -> (r: usize)
        requires
            self.wf(),
        ensures
            r == self.occupied(),
            r <= self.buckets(),
            r == self.used_buckets().len(),
    {
        proof {
            lemma_item_len_counts_used_buckets(*self);
        }
        let mut count: usize = 0;
        let mut i: usize = 0;
        while i < self.cap
            invariant
                self.wf(),
                i <= self.cap,
                count == self.occupied_upto(i as int),
                count <= i,
            decreases self.cap - i,
        {
            if let Some(value_list) = self.vec.get(i) {
                if !value_list.is_vacant() {
                    count = count + 1;
                }
            }
            i = i + 1;
        }
        count
    }

    /// The number of entries.
    pub fn len(&self) -> (r: usize)
        requires
            self.wf(),
            self@.dom().len() <= usize::MAX,
        ensures
            r == self@.dom().len(),
            self@.dom().finite(),
    {
        proof {
            self.lemma_len();
        }
        let mut count: usize = 0;
        let mut i: usize = 0;
        while i < self.cap
            invariant
                self.wf(),
                i <= self.cap,
                count == self.total_upto(i as int),
                self.total_upto(self.cap as int) <= usize::MAX,
            decreases self.cap - i,
        {
            proof {
                self.lemma_total_mono(i as int + 1, self.cap as int);
            }
            if let Some(value_list) = self.vec.get(i) {
                count = count + value_list.size();
            }
            i = i + 1;
        }
        count
    }

    /// Whether the map holds no entry.
    pub fn is_empty(&self) -> (r: bool)
        requires
            self.wf(),
        ensures
            r == (self@ == Map::<K, V>::empty()),
    {
        proof {
            lemma_empty_iff(*self);
        }
        if self.item_len() == 0 {
            true
        } else {
            false
        }
    }

    /// The entries are as many as the keys of the map, and finitely many.
    proof fn lemma_len(&self)
        requires
            self.wf(),
        ensures
            self@.dom().finite(),
            self@.dom().len() == self.total_upto(self.cap as int),
    {
        if self.cap > 0 {
            lemma_keys_upto(*self, self.cap as int);
            assert(self@.dom() =~= self.keys_upto(self.cap as int));
        } else {
            assert(self@.dom() =~= Set::<K>::empty());
        }
    }

    /// The count of entries grows with the number of buckets counted.
    proof fn lemma_total_mono(&self, m: int, n: int)
        requires
            0 <= m <= n,
        ensures
            self.total_upto(m) <= self.total_upto(n),
        decreases n - m,
    {
        if m < n {
            self.lemma_total_mono(m, n - 1);
        }
    }
}

// ----------------------------------------------------------------------
// Laws
// ----------------------------------------------------------------------

/// After `insert(k, v)`, `get(k)` finds `v`.
pub proof fn lemma_get_after_insert<K: IntKey, V>(before: HashMap<K, V>, after: HashMap<K, V>, k: K, v: V)
    requires
        after@ == before@.insert(k, v),
    ensures
        after@.dom().contains(k),
        after@[k] == v,
{
}

/// After `remove(k)`, `get(k)` finds nothing, and every other key keeps its
/// value.
pub proof fn lemma_get_after_remove<K: IntKey, V>(before: HashMap<K, V>, after: HashMap<K, V>, k: K, other: K)
    requires
        after@ == before@.remove(k),
        other != k,
    ensures
        !after@.dom().contains(k),
        after@.dom().contains(other) == before@.dom().contains(other),
        after@.dom().contains(other) ==> after@[other] == before@[other],
{
}

/// `insert` adds one entry for a new key and none for a key already there.
pub proof fn lemma_len_after_insert<K: IntKey, V>(before: HashMap<K, V>, after: HashMap<K, V>, k: K, v: V)
    requires
        before.wf(),
        after@ == before@.insert(k, v),
    ensures
        after@.dom().finite(),
        after@.dom().len() == before@.dom().len() + if before@.dom().contains(k) {
            0int
        } else {
            1int
        },
{
    before.lemma_len();
    if before@.dom().contains(k) {
        assert(after@.dom() =~= before@.dom());
    } else {
        assert(after@.dom() =~= before@.dom().insert(k));
    }
}

/// `remove` takes one entry away for a key that was there and none otherwise.
pub proof fn lemma_len_after_remove<K: IntKey, V>(before: HashMap<K, V>, after: HashMap<K, V>, k: K)
    requires
        before.wf(),
        after@ == before@.remove(k),
    ensures
        after@.dom().finite(),
        after@.dom().len() == before@.dom().len() - if before@.dom().contains(k) {
            1int
        } else {
            0int
        },
{
    before.lemma_len();
    if before@.dom().contains(k) {
        assert(after@.dom() =~= before@.dom().remove(k));
    } else {
        assert(after@.dom() =~= before@.dom());
    }
}

/// The buckets in use are never more than the entries, and none is in use
/// exactly when there is no entry: `item_len` against `len`.
pub proof fn lemma_occupied_at_most_len<K: IntKey, V>(h: HashMap<K, V>)
    requires
        h.wf(),
    ensures
        h@.dom().finite(),
        h.occupied() <= h@.dom().len(),
        (h.occupied() == 0) == (h@.dom().len() == 0),
{
    h.lemma_len();
    lemma_occupied_total(h, h.cap as int);
    lemma_empty_iff(h);
    if h@.dom().len() == 0 {
        assert(h@.dom() =~= Set::<K>::empty());
        assert(h@ =~= Map::<K, V>::empty());
    }
}

/// Counting the buckets in use never gives more than counting the entries.
proof fn lemma_occupied_total<K: IntKey, V>(h: HashMap<K, V>, n: int)
    ensures
        h.occupied_upto(n) <= h.total_upto(n),
    decreases n,
{
    if n > 0 {
        lemma_occupied_total(h, n - 1);
    }
}

/// `x` is an entry of one of the buckets `bs`.
pub open spec fn in_some_bucket<K, V>(bs: Seq<HashTableList<K, V>>, x: (K, V)) -> bool {
    exists|c: int, j: int| 0 <= c < bs.len() && 0 <= j < bs[c]@.len() && bs[c]@[j] == x
}

/// Where an entry of the buckets `bs` stands among all of them: the entry
/// at position `j` of bucket `c` is at some position of the flattened
/// sequence, and every position of that sequence comes from some bucket.
proof fn lemma_flatten_member<K, V>(bs: Seq<HashTableList<K, V>>)
    ensures
        forall|c: int, j: int|
            0 <= c < bs.len() && 0 <= j < bs[c]@.len() ==> flatten(bs).contains(#[trigger] bs[c]@[j]),
        forall|i: int| 0 <= i < flatten(bs).len() ==> in_some_bucket(bs, #[trigger] flatten(bs)[i]),
    decreases bs.len(),
{
    if bs.len() > 0 {
        let rest = bs.drop_first();
        lemma_flatten_member(rest);
        let f = flatten(bs);
        assert(f == bs[0]@ + flatten(rest));
        assert forall|c: int, j: int| 0 <= c < bs.len() && 0 <= j < bs[c]@.len() implies f.contains(#[trigger] bs[c]@[j]) by {
            if c == 0 {
                assert(f[j] == bs[0]@[j]);
            } else {
                assert(rest[c - 1] == bs[c]);
                assert(flatten(rest).contains(rest[c - 1]@[j]));
                let i = choose|i: int| 0 <= i < flatten(rest).len() && flatten(rest)[i] == rest[c - 1]@[j];
                assert(f[bs[0]@.len() + i] == flatten(rest)[i]);
            }
        }
        assert forall|i: int| 0 <= i < flatten(bs).len() implies in_some_bucket(bs, #[trigger] flatten(bs)[i]) by {
            if i < bs[0]@.len() {
                assert(f[i] == bs[0]@[i]);
                assert(0 < bs.len() && 0 <= i < bs[0]@.len() && bs[0]@[i] == f[i]);
            } else {
                let i2 = i - bs[0]@.len();
                assert(f[i] == flatten(rest)[i2]);
                assert(in_some_bucket(rest, flatten(rest)[i2]));
                let (c, j) = choose|c: int, j: int| 0 <= c < rest.len() && 0 <= j < rest[c]@.len() && rest[c]@[j] == flatten(rest)[i2];
                assert(rest[c] == bs[c + 1]);
                assert(0 <= c + 1 < bs.len() && 0 <= j < bs[c + 1]@.len() && bs[c + 1]@[j] == f[i]);
            }
        }
    }
}

/// No two entries of the buckets `bs` share a key, when no bucket repeats a
/// key and entries of distinct buckets have distinct keys.
proof fn lemma_flatten_unique<K: IntKey, V>(bs: Seq<HashTableList<K, V>>)
    requires
        forall|c: int| 0 <= c < bs.len() ==> keys_unique(#[trigger] bs[c]@),
        forall|c: int, d: int, i: int, j: int|
            0 <= c < bs.len() && 0 <= d < bs.len() && c != d && 0 <= i < bs[c]@.len() && 0 <= j < bs[d]@.len()
                ==> (#[trigger] bs[c]@[i]).0.key_int() != (#[trigger] bs[d]@[j]).0.key_int(),
    ensures
        keys_unique(flatten(bs)),
    decreases bs.len(),
{
    if bs.len() > 0 {
        let rest = bs.drop_first();
        assert forall|c: int| 0 <= c < rest.len() implies keys_unique(#[trigger] rest[c]@) by {
            assert(rest[c] == bs[c + 1]);
        }
        assert forall|c: int, d: int, i: int, j: int|
            0 <= c < rest.len() && 0 <= d < rest.len() && c != d && 0 <= i < rest[c]@.len() && 0 <= j < rest[d]@.len()
                implies (#[trigger] rest[c]@[i]).0.key_int() != (#[trigger] rest[d]@[j]).0.key_int() by {
            assert(rest[c] == bs[c + 1] && rest[d] == bs[d + 1]);
            assert(bs[c + 1]@[i].0.key_int() != bs[d + 1]@[j].0.key_int());
        }
        lemma_flatten_unique(rest);
        lemma_flatten_member(rest);
        let f = flatten(bs);
        let n0 = bs[0]@.len();
        assert(keys_unique(bs[0]@));
        assert forall|a: int, b: int| 0 <= a < b < f.len() implies f[a].0.key_int() != f[b].0.key_int() by {
            if b < n0 {
                assert(f[a] == bs[0]@[a] && f[b] == bs[0]@[b]);
            } else if a >= n0 {
                assert(f[a] == flatten(rest)[a - n0] && f[b] == flatten(rest)[b - n0]);
            } else {
                assert(f[a] == bs[0]@[a]);
                assert(f[b] == flatten(rest)[b - n0]);
                assert(in_some_bucket(rest, flatten(rest)[b - n0]));
                let (c, j) = choose|c: int, j: int| 0 <= c < rest.len() && 0 <= j < rest[c]@.len() && rest[c]@[j] == flatten(rest)[b - n0];
                assert(rest[c] == bs[c + 1]);
                assert(bs[0]@[a].0.key_int() != bs[c + 1]@[j].0.key_int());
            }
        }
    }
}

/// What `iter_mut` hands out is the map: each entry of the map once, and
/// nothing else.
pub proof fn lemma_entries_are_the_map<K: IntKey, V>(h: HashMap<K, V>)
    requires
        h.wf(),
    ensures
        keys_unique(h.entries()),
        forall|i: int|
            0 <= i < h.entries().len() ==> h@.dom().contains(#[trigger] h.entries()[i].0) && h@[h.entries()[i].0]
                == h.entries()[i].1,
        forall|k: K| #[trigger] h@.dom().contains(k) ==> h.entries().contains((k, h@[k])),
{
    let bs = h.vec@;
    lemma_flatten_member(bs);
    assert forall|c: int| 0 <= c < bs.len() implies keys_unique(#[trigger] bs[c]@) by {
        assert(bs[c]@ == h.bucket(c));
    }
    assert forall|c: int, d: int, i: int, j: int|
        0 <= c < bs.len() && 0 <= d < bs.len() && c != d && 0 <= i < bs[c]@.len() && 0 <= j < bs[d]@.len()
            implies (#[trigger] bs[c]@[i]).0.key_int() != (#[trigger] bs[d]@[j]).0.key_int() by {
        assert(bs[c]@ == h.bucket(c) && bs[d]@ == h.bucket(d));
        assert(h.home(h.bucket(c)[i].0) == c);
        assert(h.home(h.bucket(d)[j].0) == d);
    }
    lemma_flatten_unique(bs);
    assert forall|i: int| 0 <= i < h.entries().len() implies h@.dom().contains(#[trigger] h.entries()[i].0) && h@[h.entries()[i].0]
        == h.entries()[i].1 by {
        assert(in_some_bucket(bs, flatten(bs)[i]));
        let (c, j) = choose|c: int, j: int| 0 <= c < bs.len() && 0 <= j < bs[c]@.len() && bs[c]@[j] == flatten(bs)[i];
        let e = h.bucket(c)[j];
        assert(bs[c]@ == h.bucket(c));
        assert(h.home(e.0) == c);
        lemma_unique_match(h.bucket(c), e.0.key_int(), j);
    }
    assert forall|k: K| #[trigger] h@.dom().contains(k) implies h.entries().contains((k, h@[k])) by {
        let c = h.home(k);
        let s = h.bucket(c);
        lemma_has_key_first_match(s, k.key_int());
        let j = first_index(s, k.key_int());
        K::lemma_key_injective(s[j].0, k);
        assert(bs[c]@ == s);
        assert(flatten(bs).contains(bs[c]@[j]));
    }
}

/// Counting the non-empty buckets one by one counts the set of them.
proof fn lemma_occupied_counts<K: IntKey, V>(h: HashMap<K, V>, n: int)
    requires
        0 <= n,
    ensures
        h.nonempty_upto(n).finite(),
        h.occupied_upto(n) == h.nonempty_upto(n).len(),
    decreases n,
{
    if n == 0 {
        assert(h.nonempty_upto(0) =~= Set::<int>::empty());
    } else {
        lemma_occupied_counts(h, n - 1);
        let prev = h.nonempty_upto(n - 1);
        assert(!prev.contains(n - 1));
        if h.bucket(n - 1).len() > 0 {
            assert(h.nonempty_upto(n) =~= prev.insert(n - 1));
        } else {
            assert(h.nonempty_upto(n) =~= prev);
        }
    }
}

/// `item_len` counts the buckets in use: the set of home buckets of the keys
/// of the map, which are exactly the buckets that hold an entry.
pub proof fn lemma_item_len_counts_used_buckets<K: IntKey, V>(h: HashMap<K, V>)
    requires
        h.wf(),
    ensures
        forall|b: int| #[trigger] h.used_buckets().contains(b) <==> 0 <= b < h.buckets() && h.bucket(b).len() > 0,
        h.used_buckets().finite(),
        h.occupied() == h.used_buckets().len(),
        h.used_buckets().len() <= h.buckets(),
{
    lemma_occupied_counts(h, h.cap as int);
    let u = h.used_buckets();
    let e = h.nonempty_upto(h.cap as int);
    assert forall|b: int| u.contains(b) <==> e.contains(b) by {
        if u.contains(b) {
            let k = choose|k: K| #[trigger] h@.dom().contains(k) && h.home(k) == b;
            assert(h.entry_of(k) is Some);
            assert(h.cap > 0);
            assert(has_key(h.bucket(b), k.key_int()));
            assert(0 <= b < h.cap);
        }
        if e.contains(b) {
            let k = h.bucket(b)[0].0;
            assert(h.home(k) == b);
            assert(has_key(h.bucket(b), k.key_int()));
            assert(h.entry_of(k) is Some);
            assert(h@.dom().contains(k));
        }
    }
    assert(u =~= e);
    assert(e.subset_of(Set::new(|b: int| 0 <= b < h.cap)));
    vstd::set_lib::lemma_int_range(0, h.cap as int);
    assert(Set::new(|b: int| 0 <= b < h.cap) =~= vstd::set_lib::set_int_range(0, h.cap as int));
    vstd::set_lib::lemma_len_subset(e, vstd::set_lib::set_int_range(0, h.cap as int));
}

} // verus!
